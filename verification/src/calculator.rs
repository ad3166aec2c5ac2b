//! The exact responsibility calculator.
//!
//! For the pessimistic flavour it enumerates all coalitions, counts for each
//! player the pivotal coalitions of each size — a coalition `B` is pivotal
//! for `p` when `B` loses but `B` with `p` added wins — and weights the
//! counts. The count of player `p` at size `s` is stated exactly as
//! [`pivot_count`] over the solver's minimal-coalition cache. For the
//! optimistic flavour every off-path state helps by default and the counts
//! have the closed binomial form.

use vstd::prelude::*;
use crate::cli::ResponsibilityVersion;
use crate::game::{Game, Player};
use crate::groups::{StateGroups, cnt_val};
use crate::rational::{Frac, fwf, rv, feq, fint, fadd, fmul, rat_num, rat_den, big_val, rat_zero,
    rat_one, rat_add, rat_mul, rat_new, big_from_u64, big_mul, big_clone, fadd_congr, fmul_congr,
    feq_trans, feq_sym, fadd_zero, fadd_assoc, rat_clone};
use crate::responsibility::{ResponsibilityResult, WeightType, spec_weight, total_upto, fact,
    lemma_fact_pos, lemma_total_upto_wf};
use crate::solver::{CachedGameSolver, SolverThreadState, TooManyGroupsError, covers, pop64,
    pop_upto, popcount, solver_game_ok, spec_subset_of, lemma_pop_below_n, lemma_pop_of_zero, lemma_pop_of_one,
    lemma_is_game_winning_monotone};
use num_rational::BigRational;

verus! {

/// The mask with only player `p`'s bit set.
pub open spec fn player_bit(p: int) -> u64 {
    1u64 << (p as u64)
}

/// Player `p` is pivotal at coalition `c`: `p` is not a member, `c` loses,
/// and `c` with `p` added wins.
pub open spec fn is_pivotal(minimals: Seq<u64>, c: u64, p: int) -> bool {
    &&& c & player_bit(p) == 0
    &&& !covers(minimals, c)
    &&& covers(minimals, c | player_bit(p))
}

/// Number of coalitions `c` below `bound` for which `p` is pivotal and the
/// coalition with `p` added has exactly `size` players.
pub open spec fn pivot_count(minimals: Seq<u64>, p: int, size: int, bound: int) -> nat
    decreases bound,
{
    if bound <= 0 {
        0
    } else {
        pivot_count(minimals, p, size, bound - 1) + if pop64((bound - 1) as u64) + 1 == size
            && is_pivotal(minimals, (bound - 1) as u64, p) {
            1nat
        } else {
            0nat
        }
    }
}

/// No coalition has size zero after a player joins, so nothing is ever
/// counted at size zero.
pub proof fn lemma_pivot_count_size_zero(minimals: Seq<u64>, p: int, bound: int)
    ensures
        pivot_count(minimals, p, 0, bound) == 0,
    decreases bound,
{
    if bound > 0 {
        lemma_pivot_count_size_zero(minimals, p, bound - 1);
    }
}

/// When even the empty coalition wins, no coalition loses, so no player is
/// ever pivotal.
pub proof fn lemma_empty_winning_no_pivots(minimals: Seq<u64>, p: int, size: int, bound: int)
    requires
        covers(minimals, 0u64),
    ensures
        pivot_count(minimals, p, size, bound) == 0,
    decreases bound,
{
    if bound > 0 {
        lemma_empty_winning_no_pivots(minimals, p, size, bound - 1);
        let c = (bound - 1) as u64;
        lemma_is_game_winning_monotone(minimals, 0u64, c);
        assert(0u64 | c == c) by (bit_vector);
    }
}

/// The weighted responsibility total of player `p` over sizes `1..=k`, as
/// a fraction: `sum_s pivot_count(s) * weight(s)`.
pub open spec fn weighted_total(
    minimals: Seq<u64>,
    weight_type: WeightType,
    n: int,
    bound: int,
    p: int,
    k: int,
) -> Frac
    decreases k,
{
    if k <= 0 {
        fint(0)
    } else {
        fadd(
            weighted_total(minimals, weight_type, n, bound, p, k - 1),
            fmul(fint(pivot_count(minimals, p, k, bound) as int), spec_weight(weight_type, n, k)),
        )
    }
}

pub proof fn lemma_spec_weight_wf(weight_type: WeightType, n: int, s: int)
    requires
        1 <= s <= n,
    ensures
        fwf(spec_weight(weight_type, n, s)),
{
    match weight_type {
        WeightType::Shapley => {
            lemma_fact_pos(n as nat);
        },
        WeightType::Banzhaf => {
            crate::responsibility::lemma_pow2_pos((n - 1) as nat);
        },
        WeightType::Count => {
        },
    }
}

pub proof fn lemma_weighted_total_wf(
    minimals: Seq<u64>,
    weight_type: WeightType,
    n: int,
    bound: int,
    p: int,
    k: int,
)
    requires
        k <= n,
    ensures
        fwf(weighted_total(minimals, weight_type, n, bound, p, k)),
    decreases k,
{
    if k > 0 {
        lemma_weighted_total_wf(minimals, weight_type, n, bound, p, k - 1);
        lemma_spec_weight_wf(weight_type, n, k);
        let t = weighted_total(minimals, weight_type, n, bound, p, k - 1);
        let w = spec_weight(weight_type, n, k);
        let m = fmul(fint(pivot_count(minimals, p, k, bound) as int), w);
        assert(m.d == 1 * w.d);
        assert(1 * w.d == w.d);
        assert(t.d * m.d > 0) by (nonlinear_arith)
            requires
                t.d > 0,
                m.d > 0,
        ;
    }
}

/// A counts/weights total agrees with the weighted pivot total whenever the
/// counts agree with the pivot counts pointwise.
pub proof fn lemma_total_matches_weighted(
    counts: Seq<BigRational>,
    weights: Seq<BigRational>,
    minimals: Seq<u64>,
    weight_type: WeightType,
    n: int,
    bound: int,
    p: int,
    k: int,
)
    requires
        k <= n,
        counts.len() > n,
        weights.len() > n,
        forall|s: int| 0 <= s <= n ==> fwf(rv(#[trigger] counts[s])),
        forall|s: int| 0 <= s <= n ==> fwf(rv(#[trigger] weights[s])),
        forall|s: int|
            1 <= s <= n ==> feq(rv(#[trigger] counts[s]), fint(pivot_count(minimals, p, s, bound) as int)),
        forall|s: int|
            1 <= s <= n ==> feq(rv(#[trigger] weights[s]), spec_weight(weight_type, n, s)),
    ensures
        feq(
            total_upto(counts, weights, k),
            weighted_total(minimals, weight_type, n, bound, p, k),
        ),
    decreases k,
{
    if k <= 0 {
    } else {
        lemma_total_matches_weighted(
            counts,
            weights,
            minimals,
            weight_type,
            n,
            bound,
            p,
            k - 1,
        );
        lemma_total_upto_wf(counts, weights, k - 1);
        lemma_weighted_total_wf(minimals, weight_type, n, bound, p, k - 1);
        lemma_weighted_total_wf(minimals, weight_type, n, bound, p, k);
        lemma_spec_weight_wf(weight_type, n, k);
        let cw = fmul(rv(counts[k]), rv(weights[k]));
        let pw = fmul(
            fint(pivot_count(minimals, p, k, bound) as int),
            spec_weight(weight_type, n, k),
        );
        fmul_congr(
            rv(counts[k]),
            rv(weights[k]),
            fint(pivot_count(minimals, p, k, bound) as int),
            spec_weight(weight_type, n, k),
        );
        fadd_congr(
            total_upto(counts, weights, k - 1),
            cw,
            weighted_total(minimals, weight_type, n, bound, p, k - 1),
            pw,
        );
    }
}

/// When even the empty coalition wins, every weighted total is zero.
pub proof fn lemma_no_losing_coalition(
    minimals: Seq<u64>,
    weight_type: WeightType,
    n: int,
    bound: int,
    p: int,
    k: int,
)
    requires
        covers(minimals, 0u64),
        k <= n,
    ensures
        feq(weighted_total(minimals, weight_type, n, bound, p, k), fint(0)),
    decreases k,
{
    if k > 0 {
        lemma_no_losing_coalition(minimals, weight_type, n, bound, p, k - 1);
        lemma_weighted_total_wf(minimals, weight_type, n, bound, p, k - 1);
        lemma_spec_weight_wf(weight_type, n, k);
        lemma_empty_winning_no_pivots(minimals, p, k, bound);
        let t = weighted_total(minimals, weight_type, n, bound, p, k - 1);
        let w = spec_weight(weight_type, n, k);
        let m = fmul(fint(0), w);
        assert(m.n == 0 * w.n);
        assert(0 * w.n == 0);
        let a = fadd(t, m);
        assert(a.n == t.n * m.d + m.n * t.d);
        assert(t.n == 0);
        assert(t.n * m.d + m.n * t.d == 0) by (nonlinear_arith)
            requires
                t.n == 0,
                m.n == 0,
        ;
    }
}

/// With a single player, the exact engine's Shapley total is one exactly
/// when the singleton coalition wins, and zero when it loses — provided
/// the empty coalition loses. (When even the empty coalition wins, no
/// pivot exists and the total is zero instead.)
pub proof fn lemma_single_player_total(minimals: Seq<u64>)
    requires
        !covers(minimals, 0u64),
    ensures
        covers(minimals, 1u64) ==> feq(
            weighted_total(minimals, WeightType::Shapley, 1, 2, 0, 1),
            fint(1),
        ),
        !covers(minimals, 1u64) ==> feq(
            weighted_total(minimals, WeightType::Shapley, 1, 2, 0, 1),
            fint(0),
        ),
{
    lemma_pop_of_zero(64);
    lemma_pop_of_one(64);
    assert(0u64 & (1u64 << 0u64) == 0) by (bit_vector);
    assert(0u64 | (1u64 << 0u64) == 1u64) by (bit_vector);
    assert(player_bit(0) == 1u64 << 0u64);
    assert(pivot_count(minimals, 0, 1, 1) == pivot_count(minimals, 0, 1, 0) + if pop64(0u64) + 1
        == 1 && is_pivotal(minimals, 0u64, 0) {
        1nat
    } else {
        0nat
    });
    assert(pivot_count(minimals, 0, 1, 2) == pivot_count(minimals, 0, 1, 1) + if pop64(1u64) + 1
        == 1 && is_pivotal(minimals, 1u64, 0) {
        1nat
    } else {
        0nat
    });
    assert(fact(0) == 1);
    assert(fact(1) == 1 * fact(0));
    let w = spec_weight(WeightType::Shapley, 1, 1);
    assert(w == Frac { n: 1, d: 1 });
    assert(weighted_total(minimals, WeightType::Shapley, 1, 2, 0, 0) == fint(0));
    if covers(minimals, 1u64) {
        assert(is_pivotal(minimals, 0u64, 0));
        assert(pivot_count(minimals, 0, 1, 2) == 1);
        let t = weighted_total(minimals, WeightType::Shapley, 1, 2, 0, 1);
        assert(t == fadd(fint(0), fmul(fint(1), w)));
        assert(t.n == 0 * (1 * 1) + (1 * 1) * 1);
        assert(t.d == 1 * (1 * 1));
        assert(feq(t, fint(1)));
    } else {
        assert(!is_pivotal(minimals, 0u64, 0));
        assert(pivot_count(minimals, 0, 1, 2) == 0);
        let t = weighted_total(minimals, WeightType::Shapley, 1, 2, 0, 1);
        assert(t == fadd(fint(0), fmul(fint(0), w)));
        assert(t.n == 0 * (1 * 1) + (0 * 1) * 1);
        assert(t.d == 1 * (1 * 1));
        assert(feq(t, fint(0)));
    }
}


/// Number of players below `k` that are pivotal at coalition `c`.
pub open spec fn pivots_at(minimals: Seq<u64>, c: u64, k: int) -> nat
    decreases k,
{
    if k <= 0 {
        0
    } else {
        pivots_at(minimals, c, k - 1) + if is_pivotal(minimals, c, k - 1) {
            1nat
        } else {
            0nat
        }
    }
}

/// Number of (losing coalition, completing player) pairs over all
/// coalitions below `bound`: each coalition contributes every player whose
/// joining turns it winning.
pub open spec fn pair_count(minimals: Seq<u64>, n: int, bound: int) -> nat
    decreases bound,
{
    if bound <= 0 {
        0
    } else {
        pair_count(minimals, n, bound - 1) + pivots_at(minimals, (bound - 1) as u64, n)
    }
}

/// Number of coalitions below `bound` at which player `p` is pivotal,
/// regardless of size.
pub open spec fn pivots_of(minimals: Seq<u64>, p: int, bound: int) -> nat
    decreases bound,
{
    if bound <= 0 {
        0
    } else {
        pivots_of(minimals, p, bound - 1) + if is_pivotal(minimals, (bound - 1) as u64, p) {
            1nat
        } else {
            0nat
        }
    }
}

/// Player `p`'s pivotal count summed over sizes `1..=k`.
pub open spec fn sum_sizes(minimals: Seq<u64>, p: int, bound: int, k: int) -> nat
    decreases k,
{
    if k <= 0 {
        0
    } else {
        sum_sizes(minimals, p, bound, k - 1) + pivot_count(minimals, p, k, bound)
    }
}

/// The size-summed counts over all players below `k`.
pub open spec fn sum_players(minimals: Seq<u64>, bound: int, k: int) -> nat
    decreases k,
{
    if k <= 0 {
        0
    } else {
        sum_players(minimals, bound, k - 1) + pivots_of(minimals, k - 1, bound)
    }
}

/// The responsibility totals of all players below `k`, as a fraction.
pub open spec fn totals_sum(
    minimals: Seq<u64>,
    weight_type: WeightType,
    n: int,
    bound: int,
    k: int,
) -> Frac
    decreases k,
{
    if k <= 0 {
        fint(0)
    } else {
        fadd(
            totals_sum(minimals, weight_type, n, bound, k - 1),
            weighted_total(minimals, weight_type, n, bound, k - 1, n),
        )
    }
}

/// Raising the coalition bound by one adds, over all sizes up to `k`, at
/// most the one new coalition — and exactly it when the new coalition's
/// joined size is within `k`.
proof fn lemma_sum_sizes_step(minimals: Seq<u64>, p: int, bound: int, k: int)
    requires
        bound >= 1,
        k >= 0,
    ensures
        sum_sizes(minimals, p, bound, k) == sum_sizes(minimals, p, bound - 1, k) + if is_pivotal(
            minimals,
            (bound - 1) as u64,
            p,
        ) && 1 <= pop64((bound - 1) as u64) + 1 <= k {
            1nat
        } else {
            0nat
        },
    decreases k,
{
    if k > 0 {
        lemma_sum_sizes_step(minimals, p, bound, k - 1);
    }
}

/// With no coalitions, the size-summed counts vanish.
proof fn lemma_sum_sizes_empty(minimals: Seq<u64>, p: int, k: int)
    requires
        k >= 0,
    ensures
        sum_sizes(minimals, p, 0, k) == 0,
    decreases k,
{
    if k > 0 {
        lemma_sum_sizes_empty(minimals, p, k - 1);
    }
}

/// Summing the per-size pivotal counts over all sizes counts every pivotal
/// coalition exactly once.
proof fn lemma_sum_sizes_total(minimals: Seq<u64>, p: int, n: int, bound: int)
    requires
        0 <= p < n < 64,
        0 <= bound <= (1u64 << (n as u64)),
    ensures
        sum_sizes(minimals, p, bound, n) == pivots_of(minimals, p, bound),
    decreases bound,
{
    if bound <= 0 {
        lemma_sum_sizes_empty(minimals, p, n);
    } else {
        lemma_sum_sizes_total(minimals, p, n, bound - 1);
        lemma_sum_sizes_step(minimals, p, bound, n);
        let c = (bound - 1) as u64;
        if is_pivotal(minimals, c, p) {
            assert(c < (1u64 << (n as u64)));
            crate::solver::lemma_pop_below_n(c, n, p);
            assert(1 <= pop64(c) + 1 <= n);
            assert(sum_sizes(minimals, p, bound, n) == sum_sizes(minimals, p, bound - 1, n) + 1);
            assert(pivots_of(minimals, p, bound) == pivots_of(minimals, p, bound - 1) + 1);
        } else {
            assert(sum_sizes(minimals, p, bound, n) == sum_sizes(minimals, p, bound - 1, n));
            assert(pivots_of(minimals, p, bound) == pivots_of(minimals, p, bound - 1));
        }
    }
}

/// Per-coalition counting of the players below `k`, summed over the
/// coalitions below `bound`.
pub open spec fn sum_players_upto_pairs(minimals: Seq<u64>, bound: int, k: int) -> nat
    decreases bound,
{
    if bound <= 0 {
        0
    } else {
        sum_players_upto_pairs(minimals, bound - 1, k) + pivots_at(minimals, (bound - 1) as u64, k)
    }
}

proof fn lemma_pivots_exchange(minimals: Seq<u64>, bound: int, k: int)
    requires
        bound >= 0,
        k >= 0,
    ensures
        sum_players(minimals, bound, k) == sum_players_upto_pairs(minimals, bound, k),
    decreases k, bound,
{
    if k <= 0 {
        lemma_pairs_zero_players(minimals, bound);
    } else {
        lemma_pivots_exchange(minimals, bound, k - 1);
        lemma_pairs_add_player(minimals, bound, k);
    }
}

/// With no players, the per-coalition sums vanish.
proof fn lemma_pairs_zero_players(minimals: Seq<u64>, bound: int)
    requires
        bound >= 0,
    ensures
        sum_players_upto_pairs(minimals, bound, 0) == 0,
    decreases bound,
{
    if bound > 0 {
        lemma_pairs_zero_players(minimals, bound - 1);
    }
}

/// Adding player `k - 1` to the per-coalition sums adds that player's
/// pivot total.
proof fn lemma_pairs_add_player(minimals: Seq<u64>, bound: int, k: int)
    requires
        bound >= 0,
        k >= 1,
    ensures
        sum_players_upto_pairs(minimals, bound, k) == sum_players_upto_pairs(minimals, bound, k - 1)
            + pivots_of(minimals, k - 1, bound),
    decreases bound,
{
    if bound > 0 {
        lemma_pairs_add_player(minimals, bound - 1, k);
    }
}

/// With count weights a player's weighted total is plainly its summed
/// pivotal count.
proof fn lemma_count_total_is_sum(minimals: Seq<u64>, n: int, bound: int, p: int, k: int)
    requires
        k <= n,
    ensures
        feq(
            weighted_total(minimals, WeightType::Count, n, bound, p, k),
            fint(sum_sizes(minimals, p, bound, k) as int),
        ),
        fwf(weighted_total(minimals, WeightType::Count, n, bound, p, k)),
    decreases k,
{
    if k > 0 {
        lemma_count_total_is_sum(minimals, n, bound, p, k - 1);
        let t = weighted_total(minimals, WeightType::Count, n, bound, p, k - 1);
        let cnt = pivot_count(minimals, p, k, bound) as int;
        let m = fmul(fint(cnt), spec_weight(WeightType::Count, n, k));
        assert(m == (Frac { n: cnt * 1int, d: 1int * 1int }));
        assert(cnt * 1 == cnt);
        let a = fadd(t, m);
        assert(a.n == t.n * m.d + m.n * t.d);
        assert(t.n * 1 == t.n);
        let prev = sum_sizes(minimals, p, bound, k - 1) as int;
        assert(t.n * 1 + cnt * t.d == t.n + cnt * t.d);
        assert(feq(t, fint(prev)));
        assert(t.n == prev * t.d);
        assert(a.n == prev * t.d + cnt * t.d);
        assert(prev * t.d + cnt * t.d == (prev + cnt) * t.d) by (nonlinear_arith);
        assert(a.d == t.d * 1);
        assert(feq(a, fint(prev + cnt))) by (nonlinear_arith)
            requires
                a.n == (prev + cnt) * t.d,
                a.d == t.d,
        ;
    }
}

/// Count weights turn responsibility into counting: summed over every
/// player, the totals equal the number of pairs of a losing coalition and
/// a player whose joining makes it winning.
pub proof fn lemma_count_totals_are_pair_count(minimals: Seq<u64>, n: int, bound: int)
    requires
        0 <= n < 64,
        0 <= bound <= (1u64 << (n as u64)),
    ensures
        feq(
            totals_sum(minimals, WeightType::Count, n, bound, n),
            fint(pair_count(minimals, n, bound) as int),
        ),
{
    lemma_totals_sum_is_players(minimals, n, bound, n);
    lemma_pivots_exchange(minimals, bound, n);
    lemma_pairs_count_match(minimals, n, bound);
}

/// The fraction-level player sum equals the integer player sum.
proof fn lemma_totals_sum_is_players(minimals: Seq<u64>, n: int, bound: int, k: int)
    requires
        0 <= k <= n < 64,
        0 <= bound <= (1u64 << (n as u64)),
    ensures
        feq(
            totals_sum(minimals, WeightType::Count, n, bound, k),
            fint(sum_players(minimals, bound, k) as int),
        ),
        fwf(totals_sum(minimals, WeightType::Count, n, bound, k)),
    decreases k,
{
    if k > 0 {
        lemma_totals_sum_is_players(minimals, n, bound, k - 1);
        lemma_count_total_is_sum(minimals, n, bound, k - 1, n);
        lemma_sum_sizes_total(minimals, k - 1, n, bound);
        let t = totals_sum(minimals, WeightType::Count, n, bound, k - 1);
        let w = weighted_total(minimals, WeightType::Count, n, bound, k - 1, n);
        let prev = sum_players(minimals, bound, k - 1) as int;
        let cur = pivots_of(minimals, k - 1, bound) as int;
        let a = fadd(t, w);
        assert(feq(t, fint(prev)));
        assert(feq(w, fint(cur)));
        assert(t.n == prev * t.d);
        assert(w.n == cur * w.d);
        assert(a.n == t.n * w.d + w.n * t.d);
        assert(a.d == t.d * w.d);
        assert(t.n * w.d + w.n * t.d == (prev + cur) * (t.d * w.d)) by (nonlinear_arith)
            requires
                t.n == prev * t.d,
                w.n == cur * w.d,
        ;
        assert(feq(a, fint(prev + cur))) by (nonlinear_arith)
            requires
                a.n == (prev + cur) * (t.d * w.d),
                a.d == t.d * w.d,
        ;
        assert(t.d * w.d > 0) by (nonlinear_arith)
            requires
                t.d > 0,
                w.d > 0,
        ;
    }
}

/// Per-coalition player counts summed over the coalitions are the pair
/// count.
proof fn lemma_pairs_count_match(minimals: Seq<u64>, n: int, bound: int)
    requires
        bound >= 0,
    ensures
        sum_players_upto_pairs(minimals, bound, n) == pair_count(minimals, n, bound),
    decreases bound,
{
    if bound > 0 {
        lemma_pairs_count_match(minimals, n, bound - 1);
    }
}


/// Spec weights are never negative.
pub proof fn lemma_spec_weight_nonneg(weight_type: WeightType, n: int, s: int)
    requires
        1 <= s <= n,
    ensures
        spec_weight(weight_type, n, s).n >= 0,
{
    match weight_type {
        WeightType::Shapley => {
            lemma_fact_pos((n - s) as nat);
            lemma_fact_pos((s - 1) as nat);
            let a = fact((n - s) as nat);
            let b = fact((s - 1) as nat);
            assert(a * b >= 0) by (nonlinear_arith)
                requires
                    a >= 1,
                    b >= 1,
            ;
        },
        WeightType::Banzhaf => {
        },
        WeightType::Count => {
        },
    }
}

/// Responsibility is never negative: every player's weighted total is a
/// sum of nonnegative counts times nonnegative weights, so it stands for
/// a value at least zero. This is the lower half of the Shapley range.
pub proof fn lemma_weighted_total_nonneg(
    minimals: Seq<u64>,
    weight_type: WeightType,
    n: int,
    bound: int,
    p: int,
    k: int,
)
    requires
        k <= n,
    ensures
        weighted_total(minimals, weight_type, n, bound, p, k).n >= 0,
        fwf(weighted_total(minimals, weight_type, n, bound, p, k)),
    decreases k,
{
    lemma_weighted_total_wf(minimals, weight_type, n, bound, p, k);
    if k > 0 {
        lemma_weighted_total_nonneg(minimals, weight_type, n, bound, p, k - 1);
        lemma_spec_weight_wf(weight_type, n, k);
        lemma_spec_weight_nonneg(weight_type, n, k);
        let t = weighted_total(minimals, weight_type, n, bound, p, k - 1);
        let w = spec_weight(weight_type, n, k);
        let cnt = pivot_count(minimals, p, k, bound) as int;
        let m = fmul(fint(cnt), w);
        assert(m.n == cnt * w.n && m.d == 1 * w.d);
        assert(cnt * w.n >= 0) by (nonlinear_arith)
            requires
                cnt >= 0,
                w.n >= 0,
        ;
        let a = fadd(t, m);
        assert(a.n == t.n * m.d + m.n * t.d);
        assert(t.n * m.d >= 0 && m.n * t.d >= 0) by (nonlinear_arith)
            requires
                t.n >= 0,
                m.n >= 0,
                t.d > 0,
                m.d > 0,
        ;
    }
}

/// The sum of all players' totals is also at least zero.
pub proof fn lemma_totals_sum_nonneg(
    minimals: Seq<u64>,
    weight_type: WeightType,
    n: int,
    bound: int,
    k: int,
)
    requires
        k <= n,
    ensures
        totals_sum(minimals, weight_type, n, bound, k).n >= 0,
        fwf(totals_sum(minimals, weight_type, n, bound, k)),
    decreases k,
{
    if k > 0 {
        lemma_totals_sum_nonneg(minimals, weight_type, n, bound, k - 1);
        lemma_weighted_total_nonneg(minimals, weight_type, n, bound, k - 1, n);
        let t = totals_sum(minimals, weight_type, n, bound, k - 1);
        let w = weighted_total(minimals, weight_type, n, bound, k - 1, n);
        let a = fadd(t, w);
        assert(a.n == t.n * w.d + w.n * t.d);
        assert(t.n * w.d >= 0 && w.n * t.d >= 0 && t.d * w.d > 0) by (nonlinear_arith)
            requires
                t.n >= 0,
                w.n >= 0,
                t.d > 0,
                w.d > 0,
        ;
    }
}

/// The exact engine's postcondition: one result per player, each carrying
/// the exact pivotal counts of every size against the enumerated game,
/// nothing at size zero, and the weighted values and total derived from
/// them.
pub open spec fn results_exact(
    minimals: Seq<u64>,
    weight_type: WeightType,
    n: int,
    bound: int,
    results: Seq<ResponsibilityResult>,
) -> bool {
    &&& results.len() == n
    &&& forall|p: int|
        0 <= p < n ==> {
            let r = #[trigger] results[p];
            &&& r.wf()
            &&& r.group_index == p
            &&& r.n == n
            &&& feq(rv(r.count_by_size@[0]), fint(0))
            &&& feq(rv(r.value_by_size@[0]), fint(0))
            &&& (forall|s: int|
                1 <= s <= n ==> feq(
                    rv(#[trigger] r.count_by_size@[s]),
                    fint(pivot_count(minimals, p, s, bound) as int),
                ))
            &&& feq(rv(r.total_value), weighted_total(minimals, weight_type, n, bound, p, n))
        }
}

/// The cache stands for the game: every cached coalition lets the safety
/// player win once installed, and every winning coalition below the bound
/// is covered by a cached one.
pub open spec fn cache_matches_game(
    groups: &StateGroups,
    game: &Game,
    minimals: Seq<u64>,
    bound: int,
) -> bool {
    &&& forall|k: int|
        0 <= k < minimals.len() ==> crate::game::safe_wins(groups, game, #[trigger] minimals[k])
    &&& forall|c: u64|
        c < bound && #[trigger] crate::game::safe_wins(groups, game, c) ==> covers(minimals, c)
}

/// Some minimal-coalition cache that stands for the game makes the results
/// exact.
pub open spec fn some_results_exact(
    groups: &StateGroups,
    game: &Game,
    weight_type: WeightType,
    n: int,
    bound: int,
    results: Seq<ResponsibilityResult>,
) -> bool {
    exists|minimals: Seq<u64>|
        #[trigger] results_exact(minimals, weight_type, n, bound, results) && cache_matches_game(
            groups,
            game,
            minimals,
            bound,
        )
}

pub struct ResponsibilityThreadState {
    pub results: Vec<ResponsibilityResult>,
    pub thread_index: usize,
}

impl ResponsibilityThreadState {
    /// One zeroed result per player.
    pub fn new(state_groups: &StateGroups, thread_index: usize) -> (r: ResponsibilityThreadState)
        requires
            state_groups.spec_len() < usize::MAX,
        ensures
            r.thread_index == thread_index,
            r.results@.len() == state_groups.spec_len(),
            forall|p: int|
                0 <= p < r.results@.len() ==> {
                    let res = #[trigger] r.results@[p];
                    &&& res.wf()
                    &&& res.group_index == p
                    &&& res.n == state_groups.spec_len()
                    &&& forall|s: int|
                        0 <= s <= res.n ==> feq(rv(#[trigger] res.count_by_size@[s]), fint(0))
                },
    {
        let n = state_groups.len();
        let mut results: Vec<ResponsibilityResult> = Vec::new();
        let mut i: usize = 0;
        while i < n
            invariant
                i <= n,
                n < usize::MAX,
                n == state_groups.spec_len(),
                results@.len() == i,
                forall|p: int|
                    0 <= p < i ==> {
                        let res = #[trigger] results@[p];
                        &&& res.wf()
                        &&& res.group_index == p
                        &&& res.n == n
                        &&& forall|s: int|
                            0 <= s <= res.n ==> feq(rv(#[trigger] res.count_by_size@[s]), fint(0))
                    },
            decreases n - i,
        {
            results.push(ResponsibilityResult::new(i, n));
            i = i + 1;
        }
        ResponsibilityThreadState { results, thread_index }
    }
}

pub struct ResponsibilityCalculator {
    pub game: Game,
    pub weight_type: WeightType,
    pub thread_count: usize,
    pub step_size: usize,
    pub state_groups: StateGroups,
    pub silent: bool,
    /// After a stochastic run, the number of samples actually drawn.
    pub sampled_count: usize,
    pub responsibility_version: ResponsibilityVersion,
}

impl ResponsibilityCalculator {
    pub fn new(
        game: Game,
        thread_count: usize,
        weight_type: WeightType,
        state_grouping: StateGroups,
        responsibility_version: ResponsibilityVersion,
    ) -> (r: ResponsibilityCalculator)
        ensures
            r.game == game,
            r.weight_type == weight_type,
            r.thread_count == thread_count,
            r.state_groups == state_grouping,
            r.responsibility_version == responsibility_version,
            r.silent == false,
            r.sampled_count == 0,
    {
        ResponsibilityCalculator {
            game,
            weight_type,
            thread_count,
            step_size: 1024,
            state_groups: state_grouping,
            silent: false,
            sampled_count: 0,
            responsibility_version,
        }
    }

    pub fn set_silent(&mut self, silent: bool)
        ensures
            *final(self) == (ResponsibilityCalculator { silent, ..*old(self) }),
    {
        self.silent = silent;
    }

    /// The exact pessimistic engine: solves the game for all coalitions and
    /// counts, for every player and size, the coalitions the player is
    /// pivotal for, then weights them. The result is exact with respect to
    /// the minimal-coalition cache the run produced.
    pub fn compute_pessimistic_responsibility(&mut self) -> (r: Result<
        Vec<ResponsibilityResult>,
        TooManyGroupsError,
    >)
        requires
            solver_game_ok(&old(self).state_groups, &old(self).game),
            old(self).state_groups.spec_len() <= 64,
        ensures
            *final(self) == *old(self),
            r is Ok <==> old(self).state_groups.spec_len() < 64,
            match r {
                Ok(results) => some_results_exact(
                    &old(self).state_groups,
                    &old(self).game,
                    old(self).weight_type,
                    old(self).state_groups.spec_len(),
                    (1u64 << (old(self).state_groups.spec_len() as u64)) as int,
                    results@,
                ),
                Err(e) => e.count == old(self).state_groups.spec_len(),
            },
    {
        let worker_game = self.game.clone_game();
        let groups_copy = self.state_groups.clone_groups();
        let ghost wg = worker_game;
        let ghost gc = groups_copy;
        proof {
            assert(solver_game_ok(&groups_copy, &worker_game)) by {
                crate::game::lemma_graph_ok_preserved(&self.game, &worker_game);
                assert forall|i: int, j: int|
                    0 <= i < groups_copy.spec_len() && 0 <= j < groups_copy.members_of(i).len()
                    implies (#[trigger] groups_copy.members_of(i)[j]) < worker_game.states@.len() by {
                    assert(groups_copy.members_of(i) == self.state_groups.members_of(i));
                }
                assert forall|s: int| 0 <= s < worker_game.states@.len() implies #[trigger] groups_copy.mask_count(
                    !0u64,
                    s,
                ) <= usize::MAX by {
                    crate::groups::lemma_groups_equiv_mask_count(
                        &self.state_groups,
                        &groups_copy,
                        !0u64,
                        s,
                        self.state_groups.spec_len(),
                    );
                    assert(self.state_groups.mask_count(!0u64, s) <= usize::MAX);
                }
            }
        }
        let mut game_solver = CachedGameSolver::new(worker_game, self.thread_count, groups_copy);
        game_solver.set_silent(self.silent);
        match game_solver.prepare() {
            Ok(()) => {},
            Err(e) => {
                return Err(e);
            },
        }
        let ghost minimals = game_solver.minimal_coalitions@;

        let group_count = game_solver.state_groups.len();
        let coalition_count: u64 = 1u64 << (group_count as u64);
        let ghost n = group_count as int;
        proof {
            let j = group_count as u64;
            assert(j < 64 ==> 1u64 << j > 0) by (bit_vector);
        }

        let mut thread_state = ResponsibilityThreadState::new(&game_solver.state_groups, 0);

        let mut base: u64 = 0;
        while base < coalition_count
            invariant
                base <= coalition_count,
                n == group_count as int,
                0 < coalition_count,
                group_count < 64,
                coalition_count == 1u64 << (group_count as u64),
                minimals == game_solver.minimal_coalitions@,
                thread_state.results@.len() == n,
                forall|p: int|
                    0 <= p < n ==> {
                        let res = #[trigger] thread_state.results@[p];
                        &&& res.wf()
                        &&& res.group_index == p
                        &&& res.n == n
                        &&& feq(rv(res.count_by_size@[0]), fint(0))
                        &&& forall|s: int|
                            1 <= s <= n ==> feq(
                                rv(#[trigger] res.count_by_size@[s]),
                                fint(pivot_count(minimals, p, s, base as int) as int),
                            )
                    },
            decreases coalition_count - base,
        {
            let size = popcount(base) as usize;
            let winning = game_solver.is_game_winning(base);
            let ghost results_before = thread_state.results@;
            if !winning {
                let mut added_state: usize = 0;
                while added_state < group_count
                    invariant
                        added_state <= group_count,
                        group_count < 64,
                        base < coalition_count,
                        coalition_count == 1u64 << (group_count as u64),
                        n == group_count as int,
                        size == pop64(base),
                        !covers(minimals, base),
                        minimals == game_solver.minimal_coalitions@,
                        thread_state.results@.len() == n,
                        forall|p: int|
                            0 <= p < n ==> {
                                let res = #[trigger] thread_state.results@[p];
                                &&& res.wf()
                                &&& res.group_index == p
                                &&& res.n == n
                                &&& feq(rv(res.count_by_size@[0]), fint(0))
                                &&& forall|s: int|
                                    1 <= s <= n ==> feq(
                                        rv(#[trigger] res.count_by_size@[s]),
                                        fint(
                                            pivot_count(
                                                minimals,
                                                p,
                                                s,
                                                if p < added_state {
                                                    base + 1
                                                } else {
                                                    base as int
                                                },
                                            ) as int,
                                        ),
                                    )
                            },
                    decreases group_count - added_state,
                {
                    let pbit: u64 = 1u64 << (added_state as u64);
                    let coalition = base | pbit;
                    let ghost p = added_state as int;
                    proof {
                        let j = added_state as u64;
                        assert((base | (1u64 << j) != base) == (base & (1u64 << j) == 0))
                            by (bit_vector)
                            requires
                                j < 64u64,
                        ;
                        assert(pbit == 1u64 << j);
                        assert(player_bit(p) == pbit);
                    }
                    let joined_wins = coalition != base && game_solver.is_game_winning(coalition);
                    if joined_wins {
                        proof {
                            lemma_pop_below_n(base, n, p);
                        }
                        let slot = size + 1;
                        let one = rat_one();
                        let ghost oldv = rv(
                            thread_state.results@[p].count_by_size@[slot as int],
                        );
                        let ghost oldcnt = pivot_count(minimals, p, slot as int, base as int) as int;
                        let current = rat_add(
                            &thread_state.results[added_state].count_by_size[slot],
                            &one,
                        );
                        thread_state.results[added_state].count_by_size[slot] = current;
                        proof {
                            fadd_congr(oldv, rv(one), fint(oldcnt), fint(1));
                            feq_trans(rv(current), fadd(oldv, rv(one)), fint(oldcnt + 1));
                        }
                    }
                    proof {
                        assert forall|p2: int, s: int| 0 <= p2 < n && 1 <= s <= n implies feq(
                            rv((#[trigger] thread_state.results@[p2].count_by_size@[s])),
                            fint(
                                pivot_count(
                                    minimals,
                                    p2,
                                    s,
                                    if p2 < added_state + 1 {
                                        base + 1
                                    } else {
                                        base as int
                                    },
                                ) as int,
                            ),
                        ) by {
                            if p2 == p {
                                assert(pivot_count(minimals, p2, s, base + 1) == pivot_count(
                                    minimals,
                                    p2,
                                    s,
                                    base as int,
                                ) + if pop64(base) + 1 == s && is_pivotal(minimals, base, p2) {
                                    1nat
                                } else {
                                    0nat
                                });
                                if joined_wins {
                                    assert(is_pivotal(minimals, base, p2));
                                } else {
                                    assert(!is_pivotal(minimals, base, p2));
                                }
                            }
                        }
                    }
                    added_state = added_state + 1;
                }
            } else {
                proof {
                    assert forall|p2: int, s: int| 0 <= p2 < n && 1 <= s <= n implies feq(
                        rv((#[trigger] thread_state.results@[p2].count_by_size@[s])),
                        fint(pivot_count(minimals, p2, s, base + 1) as int),
                    ) by {
                        assert(!is_pivotal(minimals, base, p2));
                    }
                }
            }
            base = base + 1;
        }

        let weights = ResponsibilityResult::compute_weights(self.weight_type, group_count);
        let mut results: Vec<ResponsibilityResult> = Vec::new();
        let mut i: usize = 0;
        while i < group_count
            invariant
                i <= group_count,
                group_count < 64,
                n == group_count as int,
                coalition_count == 1u64 << (group_count as u64),
                self.weight_type == old(self).weight_type,
                weights@.len() == n + 1,
                forall|s: int| 0 <= s <= n ==> fwf(rv(#[trigger] weights@[s])),
                feq(rv(weights@[0]), fint(0)),
                forall|s: int|
                    1 <= s <= n ==> feq(
                        rv(#[trigger] weights@[s]),
                        spec_weight(self.weight_type, n, s),
                    ),
                thread_state.results@.len() == n,
                forall|p: int|
                    0 <= p < n ==> {
                        let res = #[trigger] thread_state.results@[p];
                        &&& res.wf()
                        &&& res.group_index == p
                        &&& res.n == n
                        &&& feq(rv(res.count_by_size@[0]), fint(0))
                        &&& forall|s: int|
                            1 <= s <= n ==> feq(
                                rv(#[trigger] res.count_by_size@[s]),
                                fint(pivot_count(minimals, p, s, coalition_count as int) as int),
                            )
                    },
                results@.len() == i,
                forall|p: int|
                    0 <= p < i ==> {
                        let r = #[trigger] results@[p];
                        &&& r.wf()
                        &&& r.group_index == p
                        &&& r.n == n
                        &&& feq(rv(r.count_by_size@[0]), fint(0))
                        &&& feq(rv(r.value_by_size@[0]), fint(0))
                        &&& (forall|s: int|
                            1 <= s <= n ==> feq(
                                rv(#[trigger] r.count_by_size@[s]),
                                fint(pivot_count(minimals, p, s, coalition_count as int) as int),
                            ))
                        &&& feq(
                            rv(r.total_value),
                            weighted_total(
                                minimals,
                                self.weight_type,
                                n,
                                coalition_count as int,
                                p,
                                n,
                            ),
                        )
                    },
            decreases group_count - i,
        {
            let mut result = ResponsibilityResult::new(i, group_count);
            let ghost r0 = result;
            result.add_counts(&thread_state.results[i]);
            let ghost p = i as int;
            proof {
                assert forall|s: int| 0 <= s <= n implies feq(
                    rv(#[trigger] result.count_by_size@[s]),
                    fint(
                        if s == 0 {
                            0int
                        } else {
                            pivot_count(minimals, p, s, coalition_count as int) as int
                        },
                    ),
                ) by {
                    let target: int = if s == 0 {
                        0int
                    } else {
                        pivot_count(minimals, p, s, coalition_count as int) as int
                    };
                    let za = rv(r0.count_by_size@[s]);
                    let ta = rv(thread_state.results@[p].count_by_size@[s]);
                    fadd_congr(za, ta, fint(0), fint(target));
                    feq_trans(rv(result.count_by_size@[s]), fadd(za, ta), fint(target));
                }
            }
            let ghost rc = result;
            result.compute_values(&weights);
            proof {
                lemma_total_matches_weighted(
                    rc.count_by_size@,
                    weights@,
                    minimals,
                    self.weight_type,
                    n,
                    coalition_count as int,
                    p,
                    n,
                );
                lemma_total_upto_wf(rc.count_by_size@, weights@, n);
                lemma_weighted_total_wf(
                    minimals,
                    self.weight_type,
                    n,
                    coalition_count as int,
                    p,
                    n,
                );
                let tu = total_upto(rc.count_by_size@, weights@, n);
                let wt = weighted_total(minimals, self.weight_type, n, coalition_count as int, p, n);
                fadd_congr(rv(rc.total_value), tu, fint(0), wt);
                feq_trans(
                    rv(result.total_value),
                    fadd(rv(rc.total_value), tu),
                    fadd(fint(0), wt),
                );
                fadd_zero(wt);
                feq_trans(rv(result.total_value), fadd(fint(0), wt), wt);
                assert(result.value_by_size@[0] == r0.value_by_size@[0]);
            }
            results.push(result);
            i = i + 1;
        }
        proof {
            assert(results_exact(minimals, self.weight_type, n, coalition_count as int, results@));
            assert(n == old(self).state_groups.spec_len());
            assert((group_count as u64) == (old(self).state_groups.spec_len() as u64));
            assert(coalition_count == 1u64 << (old(self).state_groups.spec_len() as u64));
            assert(results_exact(
                minimals,
                old(self).weight_type,
                old(self).state_groups.spec_len(),
                (1u64 << (old(self).state_groups.spec_len() as u64)) as int,
                results@,
            ));
            assert forall|c: u64| #[trigger] crate::game::safe_wins(
                &game_solver.state_groups,
                &game_solver.game,
                c,
            ) == crate::game::safe_wins(&old(self).state_groups, &old(self).game, c) by {
                assert forall|t: int|
                    0 <= t < old(self).game.states@.len() implies #[trigger] game_solver.game.preds_of(
                    t,
                ) == old(self).game.preds_of(t) by {
                    assert(game_solver.game.state_predecessors@[t]
                        == wg.state_predecessors@[t]);
                    assert(wg.preds_of(t) == old(self).game.preds_of(t));
                }
                assert(game_solver.game.bad_states@ == wg.bad_states@);
                assert(game_solver.state_groups == gc);
                crate::game::lemma_safe_wins_congr(
                    &game_solver.state_groups,
                    &old(self).game,
                    &game_solver.game,
                    c,
                );
                assert(crate::groups::groups_equiv(&old(self).state_groups, &gc));
                crate::game::lemma_safe_wins_groups_equiv(
                    &old(self).state_groups,
                    &game_solver.state_groups,
                    &old(self).game,
                    c,
                );
            }
            assert(cache_matches_game(
                &old(self).state_groups,
                &old(self).game,
                minimals,
                (1u64 << (old(self).state_groups.spec_len() as u64)) as int,
            ));
            assert(some_results_exact(
                &old(self).state_groups,
                &old(self).game,
                old(self).weight_type,
                old(self).state_groups.spec_len(),
                (1u64 << (old(self).state_groups.spec_len() as u64)) as int,
                results@,
            ));
        }
        Ok(results)
    }
}



/// The optimistic rewrite of a game: every state that does not default to
/// the path player falls to the safety player, both as owner and as
/// default; everything else about the game is unchanged.
pub open spec fn opt_rewritten(a: &Game, b: &Game) -> bool {
    &&& b.states@.len() == a.states@.len()
    &&& b.state_predecessors == a.state_predecessors
    &&& b.bad_states == a.bad_states
    &&& b.initial_state == a.initial_state
    &&& forall|s: int|
        0 <= s < a.states@.len() ==> {
            let x = #[trigger] b.states@[s];
            let y = a.states@[s];
            &&& x.successor_count == y.successor_count
            &&& x.change_count == y.change_count
            &&& x.owner == (if y.default_owner == Player::Path {
                y.owner
            } else {
                Player::Safe
            })
            &&& x.default_owner == (if y.default_owner == Player::Path {
                y.default_owner
            } else {
                Player::Safe
            })
        }
}

/// The players whose singleton coalition wins the game, in increasing
/// order: the participants of the optimistic flavour.
pub open spec fn winners_list(groups: &StateGroups, game: &Game, upto: int) -> Seq<int>
    decreases upto,
{
    if upto <= 0 {
        Seq::empty()
    } else {
        winners_list(groups, game, upto - 1) + if crate::game::safe_wins(
            groups,
            game,
            1u64 << ((upto - 1) as u64),
        ) {
            seq![upto - 1]
        } else {
            Seq::empty()
        }
    }
}

/// The winners list reads the game only through the masked winner, so it
/// agrees on games with the same singleton verdicts.
proof fn lemma_winners_list_congr(
    groups: &StateGroups,
    a: &Game,
    b: &Game,
    upto: int,
)
    requires
        forall|i: int|
            0 <= i < upto ==> #[trigger] crate::game::safe_wins(groups, a, 1u64 << (i as u64))
                == crate::game::safe_wins(groups, b, 1u64 << (i as u64)),
    ensures
        winners_list(groups, a, upto) == winners_list(groups, b, upto),
    decreases upto,
{
    if upto > 0 {
        lemma_winners_list_congr(groups, a, b, upto - 1);
    }
}

/// A coalition mask with one bit selects exactly that player's members.
proof fn lemma_singleton_mask_count(groups: &StateGroups, i: int, s: int, k: int)
    requires
        0 <= i < 64,
        0 <= k <= groups.spec_len(),
        groups.spec_len() <= 64,
    ensures
        groups.mask_count_upto(1u64 << (i as u64), s, k) == if i < k {
            cnt_val(groups.members_of(i), s, groups.members_of(i).len() as int)
        } else {
            0nat
        },
    decreases k,
{
    if k > 0 {
        lemma_singleton_mask_count(groups, i, s, k - 1);
        let iu = i as u64;
        let j = (k - 1) as u64;
        assert((((1u64 << iu) & (1u64 << j)) != 0) == (iu == j)) by (bit_vector)
            requires
                iu < 64u64,
                j < 64u64,
        ;
    }
}

/// The closed-form count of the optimistic flavour: a participating player
/// is pivotal in every arrangement where exactly `s - 1` of the `l`
/// non-participating players precede it, so its count at size `s` is the
/// binomial coefficient `C(l, s - 1)`, here as the fraction
/// `l! / ((s-1)! (l-s+1)!)`; outside `1..=l+1` the count is zero.
pub open spec fn opt_count(l: int, s: int) -> Frac {
    if 1 <= s <= l + 1 {
        Frac {
            n: fact(l as nat) as int,
            d: (fact((s - 1) as nat) * fact((l + 1 - s) as nat)) as int,
        }
    } else {
        fint(0)
    }
}

/// The weighted optimistic total over sizes `1..=k`.
pub open spec fn opt_total(weight_type: WeightType, n: int, l: int, k: int) -> Frac
    decreases k,
{
    if k <= 0 {
        fint(0)
    } else {
        fadd(
            opt_total(weight_type, n, l, k - 1),
            fmul(opt_count(l, k), spec_weight(weight_type, n, k)),
        )
    }
}

pub proof fn lemma_opt_count_wf(l: int, s: int)
    requires
        0 <= l,
    ensures
        fwf(opt_count(l, s)),
{
    if 1 <= s <= l + 1 {
        lemma_fact_pos((s - 1) as nat);
        lemma_fact_pos((l + 1 - s) as nat);
        let a = fact((s - 1) as nat);
        let b = fact((l + 1 - s) as nat);
        assert(a * b >= 1) by (nonlinear_arith)
            requires
                a >= 1,
                b >= 1,
        ;
    }
}

pub proof fn lemma_opt_total_wf(weight_type: WeightType, n: int, l: int, k: int)
    requires
        k <= n,
        0 <= l,
    ensures
        fwf(opt_total(weight_type, n, l, k)),
    decreases k,
{
    if k > 0 {
        lemma_opt_total_wf(weight_type, n, l, k - 1);
        lemma_opt_count_wf(l, k);
        lemma_spec_weight_wf(weight_type, n, k);
        let t = opt_total(weight_type, n, l, k - 1);
        let c = opt_count(l, k);
        let w = spec_weight(weight_type, n, k);
        let m = fmul(c, w);
        assert(c.d * w.d > 0) by (nonlinear_arith)
            requires
                c.d > 0,
                w.d > 0,
        ;
        assert(t.d * m.d > 0) by (nonlinear_arith)
            requires
                t.d > 0,
                m.d > 0,
        ;
    }
}

/// A counts/weights total agrees with the optimistic closed form whenever
/// the counts agree with the binomial counts pointwise.
pub proof fn lemma_total_matches_opt(
    counts: Seq<BigRational>,
    weights: Seq<BigRational>,
    weight_type: WeightType,
    n: int,
    l: int,
    k: int,
)
    requires
        k <= n,
        0 <= l,
        counts.len() > n,
        weights.len() > n,
        forall|s: int| 0 <= s <= n ==> fwf(rv(#[trigger] counts[s])),
        forall|s: int| 0 <= s <= n ==> fwf(rv(#[trigger] weights[s])),
        forall|s: int| 1 <= s <= n ==> feq(rv(#[trigger] counts[s]), opt_count(l, s)),
        forall|s: int|
            1 <= s <= n ==> feq(rv(#[trigger] weights[s]), spec_weight(weight_type, n, s)),
    ensures
        feq(total_upto(counts, weights, k), opt_total(weight_type, n, l, k)),
    decreases k,
{
    if k > 0 {
        lemma_total_matches_opt(counts, weights, weight_type, n, l, k - 1);
        lemma_total_upto_wf(counts, weights, k - 1);
        lemma_opt_total_wf(weight_type, n, l, k - 1);
        lemma_opt_count_wf(l, k);
        lemma_spec_weight_wf(weight_type, n, k);
        let oc = opt_count(l, k);
        let sw = spec_weight(weight_type, n, k);
        assert(oc.d * sw.d > 0) by (nonlinear_arith)
            requires
                oc.d > 0,
                sw.d > 0,
        ;
        fmul_congr(rv(counts[k]), rv(weights[k]), opt_count(l, k), spec_weight(weight_type, n, k));
        fadd_congr(
            total_upto(counts, weights, k - 1),
            fmul(rv(counts[k]), rv(weights[k])),
            opt_total(weight_type, n, l, k - 1),
            fmul(opt_count(l, k), spec_weight(weight_type, n, k)),
        );
    }
}

/// The optimistic results: one entry per participating player, in
/// increasing player order, each carrying the binomial counts over the
/// `l` non-participants and the weighted total derived from them.
pub open spec fn opt_results_exact(
    weight_type: WeightType,
    n: int,
    results: Seq<ResponsibilityResult>,
) -> bool {
    let l = n - results.len();
    &&& results.len() <= n
    &&& forall|k1: int, k2: int|
        0 <= k1 < k2 < results.len() ==> results[k1].group_index < results[k2].group_index
    &&& forall|k: int|
        0 <= k < results.len() ==> {
            let r = #[trigger] results[k];
            &&& r.wf()
            &&& r.group_index < n
            &&& r.n == n
            &&& (forall|s: int| 0 <= s <= n ==> feq(rv(#[trigger] r.count_by_size@[s]), opt_count(l, s)))
            &&& feq(rv(r.total_value), opt_total(weight_type, n, l, n))
        }
}

impl ResponsibilityCalculator {
    /// The optimistic flavour in closed form: every off-path state helps
    /// the coalition by default, a player participates exactly when its
    /// singleton coalition wins, and each participant's counts are the
    /// binomial coefficients over the non-participants.
    pub fn compute_optimistic_responsibility(&mut self) -> (r: Vec<ResponsibilityResult>)
        requires
            solver_game_ok(&old(self).state_groups, &old(self).game),
            old(self).state_groups.spec_len() <= 64,
        ensures
            final(self).state_groups == old(self).state_groups,
            final(self).weight_type == old(self).weight_type,
            opt_results_exact(
                old(self).weight_type,
                old(self).state_groups.spec_len(),
                r@,
            ),
            opt_rewritten(&old(self).game, &final(self).game),
            r@.len() == winners_list(
                &old(self).state_groups,
                &final(self).game,
                old(self).state_groups.spec_len(),
            ).len(),
            forall|k: int|
                0 <= k < r@.len() ==> (#[trigger] r@[k]).group_index as int == winners_list(
                    &old(self).state_groups,
                    &final(self).game,
                    old(self).state_groups.spec_len(),
                )[k],
    {
        let state_count = self.game.states.len();
        let mut si: usize = 0;
        while si < state_count
            invariant
                si <= state_count,
                state_count == self.game.states@.len(),
                self.state_groups == old(self).state_groups,
                self.weight_type == old(self).weight_type,
                self.game.wf(),
                crate::game::graph_ok(&self.game),
                self.game.coalition_inv(),
                old(self).state_groups.valid_for(&self.game),
                forall|s: int|
                    0 <= s < self.game.states@.len() ==> (#[trigger] self.game.states@[s]).change_count
                        == 0,
                forall|s: int|
                    0 <= s < self.game.states@.len() ==> #[trigger] old(
                        self,
                    ).state_groups.mask_count(!0u64, s) <= usize::MAX,
                self.game.state_predecessors == old(self).game.state_predecessors,
                self.game.bad_states == old(self).game.bad_states,
                self.game.initial_state == old(self).game.initial_state,
                forall|s: int|
                    si <= s < state_count ==> #[trigger] self.game.states@[s] == old(
                        self,
                    ).game.states@[s],
                forall|s: int|
                    0 <= s < si ==> {
                        let x = #[trigger] self.game.states@[s];
                        let y = old(self).game.states@[s];
                        &&& x.successor_count == y.successor_count
                        &&& x.change_count == y.change_count
                        &&& x.attractor_count == y.attractor_count
                        &&& x.owner == (if y.default_owner == Player::Path {
                            y.owner
                        } else {
                            Player::Safe
                        })
                        &&& x.default_owner == (if y.default_owner == Player::Path {
                            y.default_owner
                        } else {
                            Player::Safe
                        })
                    },
            decreases state_count - si,
        {
            let ghost gprev = self.game;
            let st = self.game.states[si];
            let is_path = match st.default_owner {
                Player::Path => true,
                Player::Reach => false,
                Player::Safe => false,
            };
            if !is_path {
                let mut st2 = st;
                st2.default_owner = Player::Safe;
                st2.owner = Player::Safe;
                self.game.states[si] = st2;
                proof {
                    crate::game::lemma_wf_preserved(gprev, self.game);
                    crate::game::lemma_graph_ok_same_vecs(&gprev, &self.game);
                }
            }
            si = si + 1;
        }

        proof {
            assert(opt_rewritten(&old(self).game, &self.game));
        }
        let n = self.state_groups.len();
        let mut res: Vec<ResponsibilityResult> = Vec::new();
        let mut group: usize = 0;
        while group < n
            invariant
                group <= n,
                n == self.state_groups.spec_len(),
                n <= 64,
                n < usize::MAX,
                self.state_groups == old(self).state_groups,
                self.weight_type == old(self).weight_type,
                solver_game_ok(&self.state_groups, &self.game),
                res@.len() <= group,
                forall|k1: int, k2: int|
                    0 <= k1 < k2 < res@.len() ==> res@[k1].group_index < res@[k2].group_index,
                forall|k: int|
                    0 <= k < res@.len() ==> {
                        let rr = #[trigger] res@[k];
                        &&& rr.wf()
                        &&& rr.group_index < group
                        &&& rr.n == n
                        &&& feq(rv(rr.total_value), fint(0))
                        &&& forall|s: int|
                            0 <= s <= n ==> feq(rv(#[trigger] rr.count_by_size@[s]), fint(0))
                    },
                opt_rewritten(&old(self).game, &self.game),
                res@.len() == winners_list(
                    &self.state_groups,
                    &self.game,
                    group as int,
                ).len(),
                forall|k: int|
                    0 <= k < res@.len() ==> (#[trigger] res@[k]).group_index as int
                        == winners_list(&self.state_groups, &self.game, group as int)[k],
            decreases n - group,
        {
            let ghost g0 = self.game;
            proof {
                assert forall|s: int| 0 <= s < self.game.states@.len() implies (
                #[trigger] self.game.states@[s]).change_count + cnt_val(
                    self.state_groups.members_of(group as int),
                    s,
                    self.state_groups.members_of(group as int).len() as int,
                ) <= usize::MAX by {
                    lemma_player_count_le_full(&self.state_groups, group as int, s);
                    assert(self.state_groups.mask_count(!0u64, s) <= usize::MAX);
                }
            }
            self.state_groups.add_to_coalition(&mut self.game, group);
            let ghost g1 = self.game;
            proof {
                crate::game::lemma_wf_preserved(g0, self.game);
                crate::game::lemma_graph_ok_same_vecs(&g0, &self.game);
                let p = self.state_groups.members_of(group as int);
                assert forall|s: int| 0 <= s < g1.states@.len() implies self.state_groups.mask_count(
                    1u64 << (group as u64),
                    s,
                ) == cnt_val(p, s, p.len() as int) by {
                    lemma_singleton_mask_count(
                        &self.state_groups,
                        group as int,
                        s,
                        self.state_groups.spec_len(),
                    );
                }
                assert forall|s: int| 0 <= s < g1.states@.len() implies (#[trigger] g1.states@[s])
                    == (crate::game::State {
                    owner: if self.state_groups.mask_count(1u64 << (group as u64), s) > 0 {
                        Player::Safe
                    } else {
                        g0.states@[s].owner
                    },
                    change_count: (g0.states@[s].change_count + self.state_groups.mask_count(
                        1u64 << (group as u64),
                        s,
                    )) as usize,
                    ..g0.states@[s]
                }) by {}
                assert(self.state_groups.mask_set_applied(1u64 << (group as u64), g0, g1));
            }
            let winner = self.game.determine_winner();
            let ghost g2 = self.game;
            proof {
                crate::game::lemma_winner_matches_masked(
                    &self.state_groups,
                    &g0,
                    &g1,
                    1u64 << (group as u64),
                );
                assert((winner == Player::Safe) == crate::game::safe_wins(
                    &self.state_groups,
                    &g0,
                    1u64 << (group as u64),
                ));
            }
            proof {
                assert forall|s: int| 0 <= s < self.game.states@.len() implies (
                #[trigger] self.game.states@[s]).change_count >= cnt_val(
                    self.state_groups.members_of(group as int),
                    s,
                    self.state_groups.members_of(group as int).len() as int,
                ) by {
                    assert(g1.states@[s].change_count == g0.states@[s].change_count + cnt_val(
                        self.state_groups.members_of(group as int),
                        s,
                        self.state_groups.members_of(group as int).len() as int,
                    ));
                }
            }
            self.state_groups.remove_from_coalition(&mut self.game, group);
            proof {
                let g3 = self.game;
                assert forall|s: int| 0 <= s < g3.states@.len() implies (
                #[trigger] g3.states@[s]).owner == g0.states@[s].owner && g3.states@[s].change_count
                    == g0.states@[s].change_count && g3.states@[s].default_owner
                    == g0.states@[s].default_owner && g3.states@[s].successor_count
                    == g0.states@[s].successor_count by {
                    lemma_player_count_le_full(&self.state_groups, group as int, s);
                    assert(self.state_groups.mask_count(!0u64, s) <= usize::MAX);
                    assert(g1.states@[s].change_count == g0.states@[s].change_count + cnt_val(
                        self.state_groups.members_of(group as int),
                        s,
                        self.state_groups.members_of(group as int).len() as int,
                    ));
                }
                crate::game::lemma_wf_preserved(g0, self.game);
                crate::game::lemma_graph_ok_same_vecs(&g0, &self.game);
            }
            if winner == Player::Safe {
                res.push(ResponsibilityResult::new(group, n));
            }
            proof {
                assert(self.game.state_predecessors == g0.state_predecessors);
                assert forall|t: int| 0 <= t < g0.states@.len() implies #[trigger] self.game.preds_of(
                    t,
                ) == g0.preds_of(t) by {
                    assert(self.game.state_predecessors@[t] == g0.state_predecessors@[t]);
                }
                assert(opt_rewritten(&old(self).game, &self.game));
                assert forall|i: int|
                    0 <= i < group as int + 1 implies #[trigger] crate::game::safe_wins(
                    &self.state_groups,
                    &g0,
                    1u64 << (i as u64),
                ) == crate::game::safe_wins(&self.state_groups, &self.game, 1u64 << (i as u64)) by {
                    crate::game::lemma_safe_wins_congr(
                        &self.state_groups,
                        &g0,
                        &self.game,
                        1u64 << (i as u64),
                    );
                }
                lemma_winners_list_congr(&self.state_groups, &g0, &self.game, group as int + 1);
                lemma_winners_list_congr(&self.state_groups, &g0, &self.game, group as int);
                let wprev = winners_list(&self.state_groups, &g0, group as int);
                let wnext = winners_list(&self.state_groups, &g0, group as int + 1);
                assert(wnext == wprev + (if crate::game::safe_wins(
                    &self.state_groups,
                    &g0,
                    1u64 << (group as u64),
                ) {
                    seq![group as int]
                } else {
                    Seq::<int>::empty()
                }));
                assert forall|k: int| 0 <= k < res@.len() implies (#[trigger] res@[k]).group_index
                    as int == wnext[k] by {}
            }
            group = group + 1;
        }

        let ghost wl = winners_list(&self.state_groups, &self.game, n as int);
        let number_winning = res.len();
        let number_losing = n - number_winning;
        let ghost l = number_losing as int;

        let factorials = crate::responsibility::factorials_upto(number_losing);
        let mut size: usize = 1;
        while size <= number_losing + 1
            invariant
                1 <= size <= number_losing + 2,
                number_losing == n - number_winning,
                number_winning == res@.len(),
                n <= 64,
                l == number_losing as int,
                n == self.state_groups.spec_len(),
                self.state_groups == old(self).state_groups,
                self.weight_type == old(self).weight_type,
                factorials@.len() == number_losing + 1,
                forall|k: int|
                    0 <= k <= number_losing ==> big_val(#[trigger] factorials@[k]) == fact(k as nat),
                forall|k1: int, k2: int|
                    0 <= k1 < k2 < res@.len() ==> res@[k1].group_index < res@[k2].group_index,
                res@.len() == wl.len(),
                forall|k: int|
                    0 <= k < res@.len() ==> (#[trigger] res@[k]).group_index as int == wl[k],
                forall|k: int|
                    0 <= k < res@.len() ==> {
                        let rr = #[trigger] res@[k];
                        &&& rr.wf()
                        &&& rr.group_index < n
                        &&& rr.n == n
                        &&& feq(rv(rr.total_value), fint(0))
                        &&& forall|s: int|
                            0 <= s <= n ==> feq(
                                rv(#[trigger] rr.count_by_size@[s]),
                                if 1 <= s < size {
                                    opt_count(l, s)
                                } else {
                                    fint(0)
                                },
                            )
                    },
            decreases number_losing + 2 - size,
        {
            let num = big_clone(&factorials[number_losing]);
            let den = big_mul(&factorials[size - 1], &factorials[number_losing + 1 - size]);
            proof {
                lemma_fact_pos((size - 1) as nat);
                lemma_fact_pos((l + 1 - size) as nat);
                let a = fact((size - 1) as nat);
                let b = fact((l + 1 - size) as nat);
                assert(a * b >= 1) by (nonlinear_arith)
                    requires
                        a >= 1,
                        b >= 1,
                ;
            }
            let total = rat_new(num, den);
            let mut k: usize = 0;
            let ghost res_start = res@;
            while k < number_winning
                invariant
                    k <= number_winning,
                    number_winning == res@.len(),
                    res@.len() == res_start.len(),
                    1 <= size <= number_losing + 1,
                    number_losing == n - number_winning,
                    l == number_losing as int,
                    n <= 64,
                    fwf(rv(total)),
                    feq(rv(total), opt_count(l, size as int)),
                    forall|k2: int|
                        0 <= k2 < res@.len() ==> (#[trigger] res@[k2]).group_index
                            == res_start[k2].group_index && res@[k2].n == res_start[k2].n
                            && res@[k2].wf() && feq(rv(res@[k2].total_value), fint(0))
                            && res@[k2].group_index < n,
                    forall|k2: int|
                        0 <= k2 < res@.len() ==> (#[trigger] res@[k2]).n == n,
                    forall|k2: int, s: int|
                        0 <= k2 < res@.len() && 0 <= s <= n ==> feq(
                            rv((#[trigger] res@[k2].count_by_size@[s])),
                            if (1 <= s < size) || (s == size && k2 < k) {
                                opt_count(l, s)
                            } else {
                                fint(0)
                            },
                        ),
                decreases number_winning - k,
            {
                let c = rat_clone(&total);
                res[k].count_by_size[size] = c;
                k = k + 1;
            }
            proof {
                assert forall|k2: int, s: int| 0 <= k2 < res@.len() && 0 <= s <= n implies feq(
                    rv((#[trigger] res@[k2].count_by_size@[s])),
                    if 1 <= s < size + 1 {
                        opt_count(l, s)
                    } else {
                        fint(0)
                    },
                ) by {}
            }
            size = size + 1;
        }

        let weights = ResponsibilityResult::compute_weights(self.weight_type, n);
        let ghost res_pre = res@;
        let mut out: Vec<ResponsibilityResult> = Vec::new();
        while res.len() > 0
            invariant
                out@.len() + res@.len() == res_pre.len(),
                res@ =~= res_pre.subrange(out@.len() as int, res_pre.len() as int),
                number_winning == res_pre.len(),
                number_losing == n - number_winning,
                l == number_losing as int,
                n <= 64,
                n < usize::MAX,
                n == self.state_groups.spec_len(),
                self.state_groups == old(self).state_groups,
                self.weight_type == old(self).weight_type,
                weights@.len() == n + 1,
                forall|s: int| 0 <= s <= n ==> fwf(rv(#[trigger] weights@[s])),
                forall|s: int|
                    1 <= s <= n ==> feq(
                        rv(#[trigger] weights@[s]),
                        spec_weight(self.weight_type, n as int, s),
                    ),
                forall|k1: int, k2: int|
                    0 <= k1 < k2 < res_pre.len() ==> res_pre[k1].group_index
                        < res_pre[k2].group_index,
                res_pre.len() == wl.len(),
                forall|k: int|
                    0 <= k < res_pre.len() ==> (#[trigger] res_pre[k]).group_index as int == wl[k],
                forall|k2: int|
                    0 <= k2 < res_pre.len() ==> (#[trigger] res_pre[k2]).wf()
                        && res_pre[k2].group_index < n && res_pre[k2].n == n && feq(
                        rv(res_pre[k2].total_value),
                        fint(0),
                    ),
                forall|k2: int, s: int|
                    0 <= k2 < res_pre.len() && 0 <= s <= n ==> feq(
                        rv((#[trigger] res_pre[k2].count_by_size@[s])),
                        opt_count(l, s),
                    ),
                forall|k2: int|
                    0 <= k2 < out@.len() ==> {
                        let rr = #[trigger] out@[k2];
                        &&& rr.wf()
                        &&& rr.group_index == res_pre[k2].group_index
                        &&& rr.n == n
                        &&& (forall|s: int|
                            0 <= s <= n ==> feq(
                                rv(#[trigger] rr.count_by_size@[s]),
                                opt_count(l, s),
                            ))
                        &&& feq(
                            rv(rr.total_value),
                            opt_total(self.weight_type, n as int, l, n as int),
                        )
                    },
            decreases res@.len(),
        {
            let mut entry = res.remove(0);
            let ghost e0 = entry;
            entry.compute_values(&weights);
            proof {
                lemma_total_matches_opt(
                    e0.count_by_size@,
                    weights@,
                    self.weight_type,
                    n as int,
                    l,
                    n as int,
                );
                lemma_total_upto_wf(e0.count_by_size@, weights@, n as int);
                lemma_opt_total_wf(self.weight_type, n as int, l, n as int);
                let tu = total_upto(e0.count_by_size@, weights@, n as int);
                let ot = opt_total(self.weight_type, n as int, l, n as int);
                fadd_congr(rv(e0.total_value), tu, fint(0), ot);
                feq_trans(rv(entry.total_value), fadd(rv(e0.total_value), tu), fadd(fint(0), ot));
                fadd_zero(ot);
                feq_trans(rv(entry.total_value), fadd(fint(0), ot), ot);
            }
            out.push(entry);
        }
        proof {
            assert(self.state_groups == old(self).state_groups);
            assert(winners_list(
                &old(self).state_groups,
                &self.game,
                old(self).state_groups.spec_len(),
            ) == wl);
            assert forall|k: int| 0 <= k < out@.len() implies (#[trigger] out@[k]).group_index
                as int == wl[k] by {
                assert(out@[k].group_index == res_pre[k].group_index);
            }
        }
        out
    }
}

/// One player's members count at most what the full mask counts.
pub proof fn lemma_player_count_le_full(groups: &StateGroups, i: int, s: int)
    requires
        0 <= i < groups.spec_len(),
        groups.spec_len() <= 64,
    ensures
        cnt_val(groups.members_of(i), s, groups.members_of(i).len() as int) <= groups.mask_count(
            !0u64,
            s,
        ),
{
    let j = i as u64;
    assert((!0u64) & (1u64 << j) != 0 && 1u64 << j != 0) by (bit_vector)
        requires
            j < 64u64,
    ;
    assert(groups.mask_count_upto(!0u64, s, i + 1) == groups.mask_count_upto(!0u64, s, i)
        + cnt_val(groups.members_of(i), s, groups.members_of(i).len() as int));
    groups.lemma_mask_count_mono(!0u64, s, i + 1, groups.spec_len());
}


/// Why a stochastic run could not start.
#[derive(Copy, Clone, Debug, Eq, PartialEq, Structural)]
pub enum StochasticError {
    /// The randomized engine supports only pessimistic responsibility; the
    /// optimistic closed form is already cheap.
    OptimisticUnsupported,
    /// There is no player to sample.
    NoPlayers,
    /// More groups than coalition mask bits.
    TooManyGroups { count: usize },
    /// A wall-clock budget needs the caller's clock: drive
    /// [`crate::sampler::SamplerState::sample`] directly instead.
    TimeBudgetRequiresClock,
}

impl ResponsibilityCalculator {
    /// Chooses the engine for the configured flavour: the closed form for
    /// optimistic responsibility, the full enumeration for pessimistic.
    pub fn compute_individual_responsibility(&mut self) -> (r: Result<
        Vec<ResponsibilityResult>,
        TooManyGroupsError,
    >)
        requires
            solver_game_ok(&old(self).state_groups, &old(self).game),
            old(self).state_groups.spec_len() <= 64,
        ensures
            final(self).state_groups == old(self).state_groups,
            final(self).weight_type == old(self).weight_type,
            match old(self).responsibility_version {
                ResponsibilityVersion::Optimistic => r matches Ok(results) && opt_results_exact(
                    old(self).weight_type,
                    old(self).state_groups.spec_len(),
                    results@,
                ) && opt_rewritten(&old(self).game, &final(self).game) && results@.len()
                    == winners_list(
                    &old(self).state_groups,
                    &final(self).game,
                    old(self).state_groups.spec_len(),
                ).len() && (forall|k: int|
                    0 <= k < results@.len() ==> (#[trigger] results@[k]).group_index as int
                        == winners_list(
                        &old(self).state_groups,
                        &final(self).game,
                        old(self).state_groups.spec_len(),
                    )[k]),
                ResponsibilityVersion::Pessimistic => (r is Ok <==> old(
                    self,
                ).state_groups.spec_len() < 64) && (r matches Ok(results)
                    ==> some_results_exact(
                    &old(self).state_groups,
                    &old(self).game,
                    old(self).weight_type,
                    old(self).state_groups.spec_len(),
                    (1u64 << (old(self).state_groups.spec_len() as u64)) as int,
                    results@,
                )),
            },
    {
        match self.responsibility_version {
            ResponsibilityVersion::Optimistic => Ok(self.compute_optimistic_responsibility()),
            ResponsibilityVersion::Pessimistic => self.compute_pessimistic_responsibility(),
        }
    }

    /// The stochastic engine: draws stratified samples until the budget is
    /// spent and converts the counters to estimates. The run is
    /// reproducible from `seed`. Wall-clock budgets need the caller's
    /// clock and are refused here.
    pub fn sample_individual_responsibilities(
        &mut self,
        sample_target: crate::sampler::SampleTarget,
        seed: u64,
    ) -> (r: Result<Vec<ResponsibilityResult>, StochasticError>)
        requires
            solver_game_ok(&old(self).state_groups, &old(self).game),
        ensures
            final(self).state_groups == old(self).state_groups,
            final(self).weight_type == old(self).weight_type,
            r is Ok <==> (old(self).responsibility_version == ResponsibilityVersion::Pessimistic
                && 1 <= old(self).state_groups.spec_len() <= 64 && sample_target is Samples),
            r matches Ok(results) ==> {
                &&& results@.len() == old(self).state_groups.spec_len()
                &&& forall|p: int|
                    0 <= p < results@.len() ==> (#[trigger] results@[p]).wf()
                        && results@[p].group_index == p && results@[p].n == old(
                        self,
                    ).state_groups.spec_len()
            },
            r is Ok ==> (sample_target matches crate::sampler::SampleTarget::Samples(t)
                && final(self).sampled_count == t),
    {
        match self.responsibility_version {
            ResponsibilityVersion::Optimistic => {
                return Err(StochasticError::OptimisticUnsupported);
            },
            ResponsibilityVersion::Pessimistic => {},
        }
        let n = self.state_groups.len();
        if n == 0 {
            return Err(StochasticError::NoPlayers);
        }
        if n > 64 {
            return Err(StochasticError::TooManyGroups { count: n });
        }
        match sample_target {
            crate::sampler::SampleTarget::ElapsedTime(_) => {
                return Err(StochasticError::TimeBudgetRequiresClock);
            },
            crate::sampler::SampleTarget::Samples(_) => {},
        }

        let worker_game = self.game.clone_game();
        let groups_copy = self.state_groups.clone_groups();
        proof {
            assert(solver_game_ok(&groups_copy, &worker_game)) by {
                crate::game::lemma_graph_ok_preserved(&self.game, &worker_game);
                assert forall|i: int, j: int|
                    0 <= i < groups_copy.spec_len() && 0 <= j < groups_copy.members_of(i).len()
                    implies (#[trigger] groups_copy.members_of(i)[j]) < worker_game.states@.len() by {
                    assert(groups_copy.members_of(i) == self.state_groups.members_of(i));
                }
                assert forall|s: int| 0 <= s < worker_game.states@.len() implies #[trigger] groups_copy.mask_count(
                    !0u64,
                    s,
                ) <= usize::MAX by {
                    crate::groups::lemma_groups_equiv_mask_count(
                        &self.state_groups,
                        &groups_copy,
                        !0u64,
                        s,
                        self.state_groups.spec_len(),
                    );
                    assert(self.state_groups.mask_count(!0u64, s) <= usize::MAX);
                }
            }
        }
        let mut sampler = crate::sampler::SamplerState::new(
            worker_game,
            groups_copy,
            sample_target,
            self.thread_count,
            seed,
        );
        let samples_per_winning: usize = 50;
        sampler.run(samples_per_winning);
        let results = sampler.to_responsibility_results(self.weight_type, samples_per_winning);
        self.sampled_count = sampler.total_samples;
        Ok(results)
    }
}

} // verus!
