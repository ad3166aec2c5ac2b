//! The cached exact game solver.
//!
//! Coalitions are 64-bit masks over the players. The solver enumerates them
//! in order of population count, keeps every winning coalition found to be
//! minimal, and answers [`CachedGameSolver::is_game_winning`] by checking
//! whether some cached minimal coalition is a subset of the queried mask —
//! sound for monotone games, where adding players to a winning coalition
//! keeps it winning ([`lemma_is_game_winning_monotone`]).

use vstd::prelude::*;
use crate::game::{Game, Player, safe_wins};
use crate::groups::StateGroups;

verus! {

/// Bitwise subset: every player of `a` is a player of `b`.
pub open spec fn spec_subset_of(a: u64, b: u64) -> bool {
    a & b == a
}

/// Some cached minimal coalition is a subset of `c`.
pub open spec fn covers(minimals: Seq<u64>, c: u64) -> bool {
    exists|k: int| 0 <= k < minimals.len() && spec_subset_of(#[trigger] minimals[k], c)
}

/// Number of set bits among the lowest `k` bits of `x`.
pub open spec fn pop_upto(x: u64, k: int) -> nat
    decreases k,
{
    if k <= 0 {
        0
    } else {
        pop_upto(x, k - 1) + if x & (1u64 << ((k - 1) as u64)) != 0 {
            1nat
        } else {
            0nat
        }
    }
}

/// Number of set bits of `x`.
pub open spec fn pop64(x: u64) -> nat {
    pop_upto(x, 64)
}

/// Population count, bit by bit.
pub fn popcount(x: u64) -> (c: u32)
    ensures
        c == pop64(x),
{
    let mut c: u32 = 0;
    let mut k: usize = 0;
    while k < 64
        invariant
            k <= 64,
            c == pop_upto(x, k as int),
            c <= k,
        decreases 64 - k,
    {
        if x & (1u64 << (k as u64)) != 0 {
            c = c + 1;
        }
        k = k + 1;
    }
    c
}

/// Bitwise test that `potential_subset` is a subset of `set`.
pub fn is_subset_of(potential_subset: u64, set: u64) -> (r: bool)
    ensures
        r == spec_subset_of(potential_subset, set),
{
    let r = ((potential_subset | set) ^ set) == 0;
    proof {
        assert(((potential_subset | set) ^ set == 0) == (potential_subset & set
            == potential_subset)) by (bit_vector);
    }
    r
}

/// Monotonicity of the covering predicate: whatever covers `c` covers any
/// superset of `c`. With `extra` the mask of added players, this is the law
/// that a winning coalition stays winning when players join.
pub proof fn lemma_is_game_winning_monotone(minimals: Seq<u64>, c: u64, extra: u64)
    requires
        covers(minimals, c),
    ensures
        covers(minimals, c | extra),
{
    let k = choose|k: int| 0 <= k < minimals.len() && spec_subset_of(#[trigger] minimals[k], c);
    let m = minimals[k];
    assert(m & (c | extra) == m) by (bit_vector)
        requires
            m & c == m,
    ;
}

/// The game a solver works on: structurally well formed, reference counts
/// all zero (no coalition installed), members valid, and small enough that
/// no mask can overflow a reference count.
pub open spec fn solver_game_ok(groups: &StateGroups, game: &Game) -> bool {
    &&& game.wf()
    &&& crate::game::graph_ok(game)
    &&& game.coalition_inv()
    &&& groups.valid_for(game)
    &&& forall|s: int|
        0 <= s < game.states@.len() ==> (#[trigger] game.states@[s]).change_count == 0
    &&& forall|s: int|
        0 <= s < game.states@.len() ==> #[trigger] groups.mask_count(!0u64, s) <= usize::MAX
}

/// Any mask selects at most what the full mask selects.
pub proof fn lemma_mask_count_le_full(groups: &StateGroups, mask: u64, s: int, k: int)
    requires
        0 <= k,
    ensures
        groups.mask_count_upto(mask, s, k) <= groups.mask_count_upto(!0u64, s, k),
    decreases k,
{
    if k > 0 {
        lemma_mask_count_le_full(groups, mask, s, k - 1);
        let y = 1u64 << ((k - 1) as u64);
        assert(((!0u64) & y == y) && (mask & y != 0 ==> y != 0)) by (bit_vector);
    }
}


pub proof fn lemma_pop_upto_le(x: u64, k: int)
    requires
        0 <= k,
    ensures
        pop_upto(x, k) <= k,
    decreases k,
{
    if k > 0 {
        lemma_pop_upto_le(x, k - 1);
    }
}

/// A cleared bit below `k` keeps the count strictly under `k`.
pub proof fn lemma_pop_missing_bit(x: u64, k: int, p: int)
    requires
        0 <= p < k,
        x & (1u64 << (p as u64)) == 0,
    ensures
        pop_upto(x, k) < k,
    decreases k,
{
    if k - 1 == p {
        lemma_pop_upto_le(x, k - 1);
    } else {
        lemma_pop_missing_bit(x, k - 1, p);
    }
}

/// Bits at or above `n` are clear in any value below `2^n`, so the whole
/// population count is already reached at `n`.
pub proof fn lemma_pop_high_zero(x: u64, n: int, k: int)
    requires
        0 <= n <= k <= 64,
        n < 64,
        x < (1u64 << (n as u64)),
    ensures
        pop_upto(x, k) == pop_upto(x, n),
    decreases k,
{
    if k > n {
        lemma_pop_high_zero(x, n, k - 1);
        let nn = n as u64;
        let j = (k - 1) as u64;
        assert(x < (1u64 << nn) && nn <= j < 64u64 ==> x & (1u64 << j) == 0) by (bit_vector);
    }
}

/// A coalition of `[0, 2^n)` with a clear bit below `n` has fewer than `n`
/// players.
pub proof fn lemma_pop_below_n(x: u64, n: int, p: int)
    requires
        0 <= p < n < 64,
        x < (1u64 << (n as u64)),
        x & (1u64 << (p as u64)) == 0,
    ensures
        pop64(x) < n,
{
    lemma_pop_high_zero(x, n, 64);
    lemma_pop_missing_bit(x, n, p);
}


/// The all-zero word has no set bits.
pub proof fn lemma_pop_of_zero(k: int)
    requires
        0 <= k <= 64,
    ensures
        pop_upto(0u64, k) == 0,
    decreases k,
{
    if k > 0 {
        lemma_pop_of_zero(k - 1);
        let j = (k - 1) as u64;
        assert(0u64 & (1u64 << j) == 0) by (bit_vector)
            requires
                j < 64u64,
        ;
    }
}

/// The word one has exactly its lowest bit set.
pub proof fn lemma_pop_of_one(k: int)
    requires
        1 <= k <= 64,
    ensures
        pop_upto(1u64, k) == 1,
    decreases k,
{
    let j = (k - 1) as u64;
    if k == 1 {
        assert(1u64 & (1u64 << j) != 0) by (bit_vector)
            requires
                j == 0u64,
        ;
        assert(pop_upto(1u64, 0) == 0);
    } else {
        lemma_pop_of_one(k - 1);
        assert(1u64 & (1u64 << j) == 0) by (bit_vector)
            requires
                1u64 <= j < 64u64,
        ;
    }
}



/// Does the cache sequence hold the coalition mask `c`?
pub open spec fn seq_has_u64(s: Seq<u64>, c: u64) -> bool {
    exists|i: int| 0 <= i < s.len() && s[i] == c
}

pub proof fn lemma_seq_has_u64_push(s: Seq<u64>, x: u64, c: u64)
    ensures
        seq_has_u64(s.push(x), c) <==> (seq_has_u64(s, c) || x == c),
{
    if seq_has_u64(s.push(x), c) {
        let w = choose|w: int| 0 <= w < s.push(x).len() && (#[trigger] s.push(x)[w]) == c;
        if w < s.len() {
            assert(s[w] == c);
        }
    }
    if seq_has_u64(s, c) {
        let w = choose|w: int| 0 <= w < s.len() && s[w] == c;
        assert(s.push(x)[w] == c);
    }
    if x == c {
        assert(s.push(x)[s.len() as int] == c);
    }
}

/// Covering survives appending to the cache.
pub proof fn lemma_covers_extend(s1: Seq<u64>, s2: Seq<u64>, c: u64)
    requires
        covers(s1, c),
        s1.len() <= s2.len(),
        forall|i: int| 0 <= i < s1.len() ==> s2[i] == s1[i],
    ensures
        covers(s2, c),
{
    let k = choose|k: int| 0 <= k < s1.len() && spec_subset_of(#[trigger] s1[k], c);
    assert(spec_subset_of(s2[k], c));
}

/// The winner structure is preserved by attractor runs and coalition
/// round trips, so the masked winner can be read off either side.
pub proof fn lemma_safe_wins_same_but_attractor(
    groups: &StateGroups,
    a: &Game,
    b: &Game,
    mask: u64,
)
    requires
        b.same_but_attractor(a),
    ensures
        safe_wins(groups, b, mask) == safe_wins(groups, a, mask),
{
    assert forall|t: int|
        0 <= t < a.states@.len() implies #[trigger] b.preds_of(t) == a.preds_of(t) by {
        assert(b.state_predecessors@[t] == a.state_predecessors@[t]);
    }
    crate::game::lemma_safe_wins_congr(groups, a, b, mask);
}

pub struct SolverThreadState {
    pub game: Game,
    pub new_minimal_coalitions: Vec<u64>,
}

impl SolverThreadState {
    pub fn new(game: Game) -> (r: SolverThreadState)
        ensures
            r.game == game,
            r.new_minimal_coalitions@.len() == 0,
    {
        SolverThreadState { game, new_minimal_coalitions: Vec::new() }
    }
}

/// Everything a coalition appended during a size round satisfies: the
/// target population count, the enumerated range, and not being covered by
/// any previously known minimal coalition.
pub open spec fn round_addition_ok(frozen: Seq<u64>, c: u64, size: u32, lo: u64, hi: u64) -> bool {
    &&& pop64(c) == size
    &&& lo <= c < hi
    &&& !covers(frozen, c)
}

/// Too many player groups: coalitions are 64-bit masks and the enumeration
/// bound `2^n` must fit, so at most 63 groups can be solved exactly.
#[derive(Copy, Clone, Debug, Eq, PartialEq, Structural)]
pub struct TooManyGroupsError {
    pub count: usize,
}

pub struct CachedGameSolver {
    pub game: Game,
    pub state_groups: StateGroups,
    pub minimal_coalitions: Vec<u64>,
    pub thread_count: usize,
    pub step: usize,
    pub silent: bool,
}

impl CachedGameSolver {
    pub fn new(game: Game, thread_count: usize, state_groups: StateGroups) -> (r: CachedGameSolver)
        ensures
            r.game == game,
            r.state_groups == state_groups,
            r.minimal_coalitions@.len() == 0,
            r.thread_count == thread_count,
    {
        CachedGameSolver {
            game,
            state_groups,
            minimal_coalitions: Vec::new(),
            thread_count,
            step: 4096,
            silent: false,
        }
    }

    pub fn set_silent(&mut self, silent: bool)
        ensures
            *final(self) == (CachedGameSolver { silent, ..*old(self) }),
    {
        self.silent = silent;
    }

    /// True iff some cached minimal winning coalition is a subset of
    /// `coalition`. After [`CachedGameSolver::prepare`] this decides whether
    /// the safety coalition wins the game with exactly these players.
    pub fn is_game_winning(&self, coalition: u64) -> (r: bool)
        ensures
            r == covers(self.minimal_coalitions@, coalition),
    {
        let n = self.minimal_coalitions.len();
        let mut k: usize = 0;
        while k < n
            invariant
                k <= n,
                n == self.minimal_coalitions@.len(),
                forall|kk: int|
                    0 <= kk < k ==> !spec_subset_of(
                        #[trigger] self.minimal_coalitions@[kk],
                        coalition,
                    ),
            decreases n - k,
        {
            if is_subset_of(self.minimal_coalitions[k], coalition) {
                return true;
            }
            k = k + 1;
        }
        false
    }

    /// Installs one coalition, asks the attractor who wins, removes the
    /// coalition again, and records the coalition when the safety player
    /// won. The worker's game comes back with only its attractor scratch
    /// counters changed.
    pub fn solve_game(&self, thread_state: &mut SolverThreadState, coalition: u64)
        requires
            self.state_groups.spec_len() <= 64,
            solver_game_ok(&self.state_groups, &old(thread_state).game),
        ensures
            solver_game_ok(&self.state_groups, &final(thread_state).game),
            final(thread_state).game.same_but_attractor(&old(thread_state).game),
            final(thread_state).new_minimal_coalitions@ == (if crate::game::safe_wins(
                &self.state_groups,
                &old(thread_state).game,
                coalition,
            ) {
                old(thread_state).new_minimal_coalitions@.push(coalition)
            } else {
                old(thread_state).new_minimal_coalitions@
            }),
    {
        let ghost g0 = thread_state.game;
        proof {
            assert forall|s: int| 0 <= s < thread_state.game.states@.len() implies (
            #[trigger] thread_state.game.states@[s]).change_count + self.state_groups.mask_count(
                coalition,
                s,
            ) <= usize::MAX by {
                lemma_mask_count_le_full(
                    &self.state_groups,
                    coalition,
                    s,
                    self.state_groups.spec_len(),
                );
                assert(self.state_groups.mask_count(!0u64, s) <= usize::MAX);
            }
        }
        self.state_groups.set_state_mask(&mut thread_state.game, coalition);
        let ghost g1 = thread_state.game;
        proof {
            crate::game::lemma_wf_preserved(g0, thread_state.game);
            crate::game::lemma_graph_ok_same_vecs(&g0, &thread_state.game);
        }
        let winner = thread_state.game.determine_winner();
        proof {
            crate::game::lemma_winner_matches_masked(&self.state_groups, &g0, &g1, coalition);
        }
        let ghost g2 = thread_state.game;
        proof {
            assert forall|s: int| 0 <= s < thread_state.game.states@.len() implies (
            #[trigger] thread_state.game.states@[s]).change_count
                >= self.state_groups.mask_count(coalition, s) by {
                assert(g1.states@[s].change_count == g0.states@[s].change_count
                    + self.state_groups.mask_count(coalition, s));
            }
        }
        self.state_groups.clear_state_mask(&mut thread_state.game, coalition);
        proof {
            let g3 = thread_state.game;
            assert forall|s: int| 0 <= s < g3.states@.len() implies (#[trigger] g3.states@[s]).owner
                == g0.states@[s].owner && g3.states@[s].change_count
                == g0.states@[s].change_count && g3.states@[s].default_owner
                == g0.states@[s].default_owner && g3.states@[s].successor_count
                == g0.states@[s].successor_count by {
                lemma_mask_count_le_full(
                    &self.state_groups,
                    coalition,
                    s,
                    self.state_groups.spec_len(),
                );
                assert(self.state_groups.mask_count(!0u64, s) <= usize::MAX);
                assert(g1.states@[s].change_count == g0.states@[s].change_count
                    + self.state_groups.mask_count(coalition, s));
            }
            crate::game::lemma_wf_preserved(g0, thread_state.game);
            crate::game::lemma_graph_ok_same_vecs(&g0, &thread_state.game);
        }
        if winner == Player::Safe {
            thread_state.new_minimal_coalitions.push(coalition);
        }
    }

    /// Examines every coalition in `[start, end)` with the target
    /// population count, skipping coalitions already covered by the known
    /// minimal coalitions, and appends the newly found winning ones to the
    /// worker's buffer.
    pub fn compute_range(
        &self,
        thread_state: &mut SolverThreadState,
        size: u32,
        start: u64,
        end: u64,
    )
        requires
            self.state_groups.spec_len() <= 64,
            solver_game_ok(&self.state_groups, &old(thread_state).game),
        ensures
            solver_game_ok(&self.state_groups, &final(thread_state).game),
            final(thread_state).game.same_but_attractor(&old(thread_state).game),
            old(thread_state).new_minimal_coalitions@.is_prefix_of(
                final(thread_state).new_minimal_coalitions@,
            ),
            forall|k: int|
                old(thread_state).new_minimal_coalitions@.len() <= k < final(thread_state).new_minimal_coalitions@.len() ==> round_addition_ok(
                    self.minimal_coalitions@,
                    #[trigger] final(thread_state).new_minimal_coalitions@[k],
                    size,
                    start,
                    end,
                ),
            forall|k: int|
                old(thread_state).new_minimal_coalitions@.len() <= k < final(thread_state).new_minimal_coalitions@.len() ==> safe_wins(
                    &self.state_groups,
                    &old(thread_state).game,
                    #[trigger] final(thread_state).new_minimal_coalitions@[k],
                ),
            forall|c: u64|
                start <= c < end && #[trigger] pop64(c) == size && !covers(
                    self.minimal_coalitions@,
                    c,
                ) && safe_wins(&self.state_groups, &old(thread_state).game, c) ==> seq_has_u64(
                    final(thread_state).new_minimal_coalitions@,
                    c,
                ),
    {
        let mut coalition = start;
        while coalition < end
            invariant
                start <= coalition,
                coalition <= end || coalition == start,
                self.state_groups.spec_len() <= 64,
                solver_game_ok(&self.state_groups, &thread_state.game),
                thread_state.game.same_but_attractor(&old(thread_state).game),
                old(thread_state).new_minimal_coalitions@.is_prefix_of(
                    thread_state.new_minimal_coalitions@,
                ),
                forall|k: int|
                    old(thread_state).new_minimal_coalitions@.len() <= k
                        < thread_state.new_minimal_coalitions@.len() ==> round_addition_ok(
                        self.minimal_coalitions@,
                        #[trigger] thread_state.new_minimal_coalitions@[k],
                        size,
                        start,
                        end,
                    ),
                forall|k: int|
                    old(thread_state).new_minimal_coalitions@.len() <= k
                        < thread_state.new_minimal_coalitions@.len() ==> safe_wins(
                        &self.state_groups,
                        &old(thread_state).game,
                        #[trigger] thread_state.new_minimal_coalitions@[k],
                    ),
                forall|c: u64|
                    start <= c < coalition && #[trigger] pop64(c) == size && !covers(
                        self.minimal_coalitions@,
                        c,
                    ) && safe_wins(&self.state_groups, &old(thread_state).game, c)
                        ==> seq_has_u64(thread_state.new_minimal_coalitions@, c),
            decreases end - coalition,
        {
            let ghost news_before = thread_state.new_minimal_coalitions@;
            if popcount(coalition) == size {
                if !self.is_game_winning(coalition) {
                    let ghost g_call = thread_state.game;
                    self.solve_game(thread_state, coalition);
                    proof {
                        lemma_safe_wins_same_but_attractor(
                            &self.state_groups,
                            &old(thread_state).game,
                            &g_call,
                            coalition,
                        );
                        if thread_state.new_minimal_coalitions@ == news_before.push(coalition) {
                            assert(thread_state.new_minimal_coalitions@[news_before.len() as int]
                                == coalition);
                        }
                    }
                }
            }
            coalition = coalition + 1;
            proof {
                assert forall|c: u64|
                    start <= c < coalition && #[trigger] pop64(c) == size && !covers(
                        self.minimal_coalitions@,
                        c,
                    ) && safe_wins(&self.state_groups, &old(thread_state).game, c)
                    implies seq_has_u64(thread_state.new_minimal_coalitions@, c) by {
                    if c < coalition - 1 {
                        assert(seq_has_u64(news_before, c));
                        if thread_state.new_minimal_coalitions@ != news_before {
                            let w = choose|w: int|
                                0 <= w < news_before.len() && news_before[w] == c;
                            assert(thread_state.new_minimal_coalitions@[w] == c);
                        }
                    } else {
                        assert(seq_has_u64(
                            thread_state.new_minimal_coalitions@,
                            (coalition - 1) as u64,
                        )) by {
                            assert(thread_state.new_minimal_coalitions@ == news_before.push(
                                (coalition - 1) as u64,
                            ));
                            lemma_seq_has_u64_push(
                                news_before,
                                (coalition - 1) as u64,
                                (coalition - 1) as u64,
                            );
                        }
                    }
                }
            }
        }
    }

    /// Merges a worker's newly found minimal coalitions into the shared
    /// cache.
    pub fn merge_new_minimals(&mut self, news: &Vec<u64>)
        ensures
            final(self).minimal_coalitions@ == old(self).minimal_coalitions@ + news@,
            final(self).game == old(self).game,
            final(self).state_groups == old(self).state_groups,
    {
        let n = news.len();
        let mut k: usize = 0;
        while k < n
            invariant
                k <= n,
                n == news@.len(),
                self.minimal_coalitions@ =~= old(self).minimal_coalitions@ + news@.take(k as int),
                self.game == old(self).game,
                self.state_groups == old(self).state_groups,
            decreases n - k,
        {
            self.minimal_coalitions.push(news[k]);
            k = k + 1;
        }
        proof {
            assert(news@.take(n as int) =~= news@);
        }
    }

    /// Enumerates every coalition in order of population count, caching the
    /// minimal winning ones. Afterwards the cache is sorted by population
    /// count and no cached coalition contains a cached coalition of
    /// strictly smaller size, and the solver's own game is exactly as
    /// before up to attractor scratch counters.
    pub fn prepare(&mut self) -> (r: Result<(), TooManyGroupsError>)
        requires
            solver_game_ok(&old(self).state_groups, &old(self).game),
            old(self).minimal_coalitions@.len() == 0,
        ensures
            final(self).state_groups == old(self).state_groups,
            final(self).game.same_but_attractor(&old(self).game),
            solver_game_ok(&final(self).state_groups, &final(self).game),
            r is Ok <==> old(self).state_groups.spec_len() < 64,
            r matches Err(e) ==> final(self).minimal_coalitions@ == old(self).minimal_coalitions@
                && e.count == old(self).state_groups.spec_len(),
            forall|k1: int, k2: int|
                0 <= k1 < k2 < final(self).minimal_coalitions@.len() ==> pop64(
                    #[trigger] final(self).minimal_coalitions@[k1],
                ) <= pop64(#[trigger] final(self).minimal_coalitions@[k2]),
            forall|k1: int, k2: int|
                0 <= k1 < final(self).minimal_coalitions@.len() && 0 <= k2 < final(self).minimal_coalitions@.len() && pop64(#[trigger] final(self).minimal_coalitions@[k1])
                    < pop64(#[trigger] final(self).minimal_coalitions@[k2])
                    ==> !spec_subset_of(
                    final(self).minimal_coalitions@[k1],
                    final(self).minimal_coalitions@[k2],
                ),
            forall|k: int|
                0 <= k < final(self).minimal_coalitions@.len() ==> safe_wins(
                    &final(self).state_groups,
                    &final(self).game,
                    #[trigger] final(self).minimal_coalitions@[k],
                ),
            r is Ok ==> forall|c: u64|
                c < (1u64 << (old(self).state_groups.spec_len() as u64)) && safe_wins(
                    &final(self).state_groups,
                    &final(self).game,
                    c,
                ) ==> covers(#[trigger] final(self).minimal_coalitions@, c),
    {
        let n = self.state_groups.len();
        if n >= 64 {
            return Err(TooManyGroupsError { count: n });
        }
        let coalition_count: u64 = 1u64 << (n as u64);

        let worker_game = self.game.clone_game();
        let mut thread_state = SolverThreadState::new(worker_game);
        proof {
            assert(solver_game_ok(&self.state_groups, &thread_state.game)) by {
                crate::game::lemma_graph_ok_preserved(&self.game, &thread_state.game);
                assert forall|i: int, j: int|
                    0 <= i < self.state_groups.spec_len() && 0 <= j < self.state_groups.members_of(
                        i,
                    ).len() implies (#[trigger] self.state_groups.members_of(i)[j])
                    < thread_state.game.states@.len() by {
                    assert(self.state_groups.members_of(i)[j] < self.game.states@.len());
                }
            }
        }

        let mut size: u32 = 0;
        while size <= n as u32
            invariant
                n == self.state_groups.spec_len(),
                n < 64,
                size <= n as u32 + 1,
                coalition_count == 1u64 << (n as u64),
                self.game == old(self).game,
                self.state_groups == old(self).state_groups,
                solver_game_ok(&self.state_groups, &thread_state.game),
                solver_game_ok(&self.state_groups, &self.game),
                thread_state.game.states@.len() == self.game.states@.len(),
                thread_state.game.state_predecessors@.len()
                    == self.game.state_predecessors@.len(),
                forall|t: int|
                    0 <= t < self.game.states@.len() ==> #[trigger] thread_state.game.preds_of(t)
                        == self.game.preds_of(t),
                thread_state.game.bad_states@ == self.game.bad_states@,
                thread_state.game.initial_state == self.game.initial_state,
                forall|s: int|
                    0 <= s < self.game.states@.len() ==> (#[trigger] thread_state.game.states@[s]).successor_count
                        == self.game.states@[s].successor_count
                        && thread_state.game.states@[s].owner == self.game.states@[s].owner,
                forall|k: int|
                    0 <= k < self.minimal_coalitions@.len() ==> safe_wins(
                        &self.state_groups,
                        &self.game,
                        #[trigger] self.minimal_coalitions@[k],
                    ),
                forall|c: u64|
                    c < coalition_count && #[trigger] pop64(c) < size && safe_wins(
                        &self.state_groups,
                        &self.game,
                        c,
                    ) ==> covers(self.minimal_coalitions@, c),
                forall|k: int|
                    0 <= k < self.minimal_coalitions@.len() ==> pop64(
                        #[trigger] self.minimal_coalitions@[k],
                    ) < size,
                forall|k1: int, k2: int|
                    0 <= k1 < k2 < self.minimal_coalitions@.len() ==> pop64(
                        #[trigger] self.minimal_coalitions@[k1],
                    ) <= pop64(#[trigger] self.minimal_coalitions@[k2]),
                forall|k1: int, k2: int|
                    0 <= k1 < self.minimal_coalitions@.len() && 0 <= k2
                        < self.minimal_coalitions@.len() && pop64(
                        #[trigger] self.minimal_coalitions@[k1],
                    ) < pop64(#[trigger] self.minimal_coalitions@[k2]) ==> !spec_subset_of(
                        self.minimal_coalitions@[k1],
                        self.minimal_coalitions@[k2],
                    ),
            decreases n as u32 + 1 - size,
        {
            let ghost frozen = self.minimal_coalitions@;
            let mut news: Vec<u64> = Vec::new();
            core::mem::swap(&mut news, &mut thread_state.new_minimal_coalitions);
            let ghost g_before = thread_state.game;
            self.compute_range(&mut thread_state, size, 0, coalition_count);
            let mut news: Vec<u64> = Vec::new();
            core::mem::swap(&mut news, &mut thread_state.new_minimal_coalitions);
            let ghost added = news@;
            proof {
                assert forall|k: int| 0 <= k < added.len() implies round_addition_ok(
                    frozen,
                    #[trigger] added[k],
                    size,
                    0,
                    coalition_count,
                ) by {}
            }
            proof {
                assert forall|t: int|
                    0 <= t < self.game.states@.len() implies #[trigger] thread_state.game.preds_of(
                    t,
                ) == self.game.preds_of(t) by {
                    assert(thread_state.game.state_predecessors@[t]
                        == g_before.state_predecessors@[t]);
                    assert(g_before.preds_of(t) == self.game.preds_of(t));
                }
                assert forall|c: u64| #[trigger] safe_wins(&self.state_groups, &g_before, c)
                    == safe_wins(&self.state_groups, &self.game, c) by {
                    crate::game::lemma_safe_wins_congr(
                        &self.state_groups,
                        &self.game,
                        &g_before,
                        c,
                    );
                }
            }
            self.merge_new_minimals(&news);
            proof {
                let merged = self.minimal_coalitions@;
                assert forall|k: int| 0 <= k < merged.len() implies safe_wins(
                    &self.state_groups,
                    &self.game,
                    #[trigger] merged[k],
                ) by {
                    if k < frozen.len() {
                        assert(merged[k] == frozen[k]);
                    } else {
                        assert(merged[k] == added[k - frozen.len()]);
                        assert(safe_wins(&self.state_groups, &g_before, added[k - frozen.len()]));
                    }
                }
                assert forall|c: u64|
                    c < coalition_count && #[trigger] pop64(c) < size + 1 && safe_wins(
                        &self.state_groups,
                        &self.game,
                        c,
                    ) implies covers(merged, c) by {
                    if pop64(c) < size {
                        assert(covers(frozen, c));
                        lemma_covers_extend(frozen, merged, c);
                    } else {
                        if covers(frozen, c) {
                            lemma_covers_extend(frozen, merged, c);
                        } else {
                            assert(safe_wins(&self.state_groups, &g_before, c));
                            assert(seq_has_u64(added, c));
                            let w = choose|w: int| 0 <= w < added.len() && added[w] == c;
                            assert(merged[frozen.len() + w] == c);
                            assert(c & c == c) by (bit_vector);
                            assert(spec_subset_of(merged[frozen.len() + w], c));
                        }
                    }
                }
                assert forall|k1: int, k2: int|
                    0 <= k1 < merged.len() && 0 <= k2 < merged.len() && pop64(
                        #[trigger] merged[k1],
                    ) < pop64(#[trigger] merged[k2]) implies !spec_subset_of(
                    merged[k1],
                    merged[k2],
                ) by {
                    if k2 >= frozen.len() {
                        if k1 < frozen.len() {
                            assert(!covers(frozen, merged[k2]));
                            assert(merged[k1] == frozen[k1]);
                        } else {
                            assert(pop64(merged[k1]) == size && pop64(merged[k2]) == size);
                        }
                    }
                }
            }
            size = size + 1;
        }
        proof {
            assert forall|c: u64|
                c < coalition_count && safe_wins(&self.state_groups, &self.game, c) implies covers(
                self.minimal_coalitions@,
                c,
            ) by {
                lemma_pop_high_zero(c, n as int, 64);
                lemma_pop_upto_le(c, n as int);
                assert(pop64(c) < (n as u32 + 1) as int);
            }
        }
        Ok(())
    }
}

} // verus!
