//! The grouping layer: players are either individual significant states or
//! label groups of states.
//!
//! Coalition bit `i` of a 64-bit mask stands for player `i`; adding a player
//! adds every member state of that player to the game's safe coalition, one
//! reference each. Because label groups may overlap, the same game state can
//! be added several times; the contracts below account for the exact
//! multiplicities, and [`lemma_mask_roundtrip`] shows that setting a mask and
//! clearing it restores every owner, change count and attractor counter.

use vstd::prelude::*;
use crate::game::{Game, Player, State};
use crate::transition_systems::TransitionSystem;

verus! {

pub struct StateGroup {
    pub name: String,
    pub members: Vec<usize>,
}

pub enum StateGroups {
    Individual { state_indices: Vec<usize> },
    Grouped { groups: Vec<StateGroup> },
}

/// Number of occurrences of `v` among the first `j` entries of `p`.
pub open spec fn cnt_val(p: Seq<usize>, v: int, j: int) -> nat
    decreases j,
{
    if j <= 0 {
        0
    } else {
        cnt_val(p, v, j - 1) + if p[j - 1] == v {
            1nat
        } else {
            0nat
        }
    }
}

pub proof fn lemma_cnt_val_mono(p: Seq<usize>, v: int, j1: int, j2: int)
    requires
        0 <= j1 <= j2,
    ensures
        cnt_val(p, v, j1) <= cnt_val(p, v, j2),
    decreases j2,
{
    if j1 < j2 {
        lemma_cnt_val_mono(p, v, j1, j2 - 1);
    }
}

impl StateGroups {
    /// The number of players.
    pub open spec fn spec_len(&self) -> int {
        match self {
            StateGroups::Individual { state_indices } => state_indices@.len() as int,
            StateGroups::Grouped { groups } => groups@.len() as int,
        }
    }

    /// The game states behind player `i`, with multiplicities.
    pub open spec fn members_of(&self, i: int) -> Seq<usize> {
        match self {
            StateGroups::Individual { state_indices } => Seq::new(1, |k: int| state_indices@[i]),
            StateGroups::Grouped { groups } => groups@[i].members@,
        }
    }

    /// Every member of every player is a state of the game.
    pub open spec fn valid_for(&self, game: &Game) -> bool {
        forall|i: int, j: int|
            0 <= i < self.spec_len() && 0 <= j < self.members_of(i).len() ==> (
            #[trigger] self.members_of(i)[j]) < game.states@.len()
    }

    /// Total multiplicity of state `s` over the players selected by the
    /// lowest `k` bits of `mask`.
    pub open spec fn mask_count_upto(&self, mask: u64, s: int, k: int) -> nat
        decreases k,
    {
        if k <= 0 {
            0
        } else {
            self.mask_count_upto(mask, s, k - 1) + if mask & (1u64 << ((k - 1) as u64)) != 0 {
                cnt_val(self.members_of(k - 1), s, self.members_of(k - 1).len() as int)
            } else {
                0nat
            }
        }
    }

    /// Total multiplicity of state `s` over all players selected by `mask`.
    pub open spec fn mask_count(&self, mask: u64, s: int) -> nat {
        self.mask_count_upto(mask, s, self.spec_len())
    }

    pub proof fn lemma_mask_count_mono(&self, mask: u64, s: int, k1: int, k2: int)
        requires
            0 <= k1 <= k2,
        ensures
            self.mask_count_upto(mask, s, k1) <= self.mask_count_upto(mask, s, k2),
        decreases k2,
    {
        if k1 < k2 {
            self.lemma_mask_count_mono(mask, s, k1, k2 - 1);
        }
    }

    /// `g1` is `g0` with one reference to every member of player `i` added.
    pub open spec fn adds_applied(&self, i: int, g0: Game, g1: Game) -> bool {
        let p = self.members_of(i);
        &&& g1.same_but_coalition(&g0)
        &&& forall|s: int|
            0 <= s < g1.states@.len() ==> (#[trigger] g1.states@[s]) == (State {
                owner: if cnt_val(p, s, p.len() as int) > 0 {
                    Player::Safe
                } else {
                    g0.states@[s].owner
                },
                change_count: (g0.states@[s].change_count + cnt_val(p, s, p.len() as int)) as usize,
                ..g0.states@[s]
            })
    }

    /// `g1` is `g0` with one reference to every member of player `i`
    /// removed; owners whose count reaches zero fall back to the default.
    pub open spec fn removes_applied(&self, i: int, g0: Game, g1: Game) -> bool {
        let p = self.members_of(i);
        &&& g1.same_but_coalition(&g0)
        &&& forall|s: int|
            0 <= s < g1.states@.len() ==> (#[trigger] g1.states@[s]) == (State {
                owner: if g0.states@[s].change_count == cnt_val(p, s, p.len() as int) && cnt_val(
                    p,
                    s,
                    p.len() as int,
                ) > 0 {
                    g0.states@[s].default_owner
                } else {
                    g0.states@[s].owner
                },
                change_count: (g0.states@[s].change_count - cnt_val(p, s, p.len() as int)) as usize,
                ..g0.states@[s]
            })
    }

    /// `g1` is `g0` with the whole mask's members added.
    pub open spec fn mask_set_applied(&self, mask: u64, g0: Game, g1: Game) -> bool {
        &&& g1.same_but_coalition(&g0)
        &&& forall|s: int|
            0 <= s < g1.states@.len() ==> (#[trigger] g1.states@[s]) == (State {
                owner: if self.mask_count(mask, s) > 0 {
                    Player::Safe
                } else {
                    g0.states@[s].owner
                },
                change_count: (g0.states@[s].change_count + self.mask_count(mask, s)) as usize,
                ..g0.states@[s]
            })
    }

    /// `g1` is `g0` with the whole mask's members removed.
    pub open spec fn mask_cleared_applied(&self, mask: u64, g0: Game, g1: Game) -> bool {
        &&& g1.same_but_coalition(&g0)
        &&& forall|s: int|
            0 <= s < g1.states@.len() ==> (#[trigger] g1.states@[s]) == (State {
                owner: if g0.states@[s].change_count == self.mask_count(mask, s)
                    && self.mask_count(mask, s) > 0 {
                    g0.states@[s].default_owner
                } else {
                    g0.states@[s].owner
                },
                change_count: (g0.states@[s].change_count - self.mask_count(mask, s)) as usize,
                ..g0.states@[s]
            })
    }

    pub fn len(&self) -> (n: usize)
        ensures
            n == self.spec_len(),
    {
        match self {
            StateGroups::Individual { state_indices } => state_indices.len(),
            StateGroups::Grouped { groups } => groups.len(),
        }
    }

    /// Adds one reference to every member state of player `index`.
    pub fn add_to_coalition(&self, game: &mut Game, index: usize)
        requires
            0 <= index < self.spec_len(),
            self.valid_for(old(game)),
            forall|s: int|
                0 <= s < old(game).states@.len() ==> (#[trigger] old(
                    game,
                ).states@[s]).change_count + cnt_val(
                    self.members_of(index as int),
                    s,
                    self.members_of(index as int).len() as int,
                ) <= usize::MAX,
        ensures
            self.adds_applied(index as int, *old(game), *final(game)),
    {
        self.add_or_remove_to_coalition(game, index, true);
    }

    /// Removes one reference from every member state of player `index`.
    pub fn remove_from_coalition(&self, game: &mut Game, index: usize)
        requires
            0 <= index < self.spec_len(),
            self.valid_for(old(game)),
            forall|s: int|
                0 <= s < old(game).states@.len() ==> (#[trigger] old(
                    game,
                ).states@[s]).change_count >= cnt_val(
                    self.members_of(index as int),
                    s,
                    self.members_of(index as int).len() as int,
                ),
        ensures
            self.removes_applied(index as int, *old(game), *final(game)),
    {
        self.add_or_remove_to_coalition(game, index, false);
    }

    /// Adds or removes one reference per member state of player `index`.
    pub fn add_or_remove_to_coalition(&self, game: &mut Game, index: usize, add: bool)
        requires
            0 <= index < self.spec_len(),
            self.valid_for(old(game)),
            add ==> forall|s: int|
                0 <= s < old(game).states@.len() ==> (#[trigger] old(
                    game,
                ).states@[s]).change_count + cnt_val(
                    self.members_of(index as int),
                    s,
                    self.members_of(index as int).len() as int,
                ) <= usize::MAX,
            !add ==> forall|s: int|
                0 <= s < old(game).states@.len() ==> (#[trigger] old(
                    game,
                ).states@[s]).change_count >= cnt_val(
                    self.members_of(index as int),
                    s,
                    self.members_of(index as int).len() as int,
                ),
        ensures
            add ==> self.adds_applied(index as int, *old(game), *final(game)),
            !add ==> self.removes_applied(index as int, *old(game), *final(game)),
    {
        match self {
            StateGroups::Individual { state_indices } => {
                let m = state_indices[index];
                proof {
                    let p = self.members_of(index as int);
                    assert(p[0] == state_indices@[index as int]);
                    assert(cnt_val(p, m as int, 0) == 0);
                    assert(cnt_val(p, m as int, 1) == 1);
                }
                game.add_or_remove_to_coalition(m, add);
                proof {
                    let p = self.members_of(index as int);
                    assert forall|s: int| 0 <= s < game.states@.len() implies cnt_val(
                        p,
                        s,
                        p.len() as int,
                    ) == if s == m as int {
                        1nat
                    } else {
                        0nat
                    } by {
                        assert(p.len() == 1);
                        assert(p[0] == m);
                        assert(cnt_val(p, s, 0) == 0);
                        assert(cnt_val(p, s, 1) == cnt_val(p, s, 0) + if p[0] == s {
                            1nat
                        } else {
                            0nat
                        });
                    }
                }
            },
            StateGroups::Grouped { groups } => {
                let members = &groups[index].members;
                let count = members.len();
                let mut j: usize = 0;
                while j < count
                    invariant
                        j <= count,
                        0 <= index < self.spec_len(),
                        self is Grouped,
                        members == &(match self {
                            StateGroups::Individual { .. } => arbitrary(),
                            StateGroups::Grouped { groups } => groups@[index as int],
                        }).members,
                        count == self.members_of(index as int).len(),
                        self.valid_for(old(game)),
                        game.states@.len() == old(game).states@.len(),
                        game.same_but_coalition(old(game)),
                        add ==> forall|s: int|
                            0 <= s < old(game).states@.len() ==> (#[trigger] old(
                                game,
                            ).states@[s]).change_count + cnt_val(
                                self.members_of(index as int),
                                s,
                                self.members_of(index as int).len() as int,
                            ) <= usize::MAX,
                        !add ==> forall|s: int|
                            0 <= s < old(game).states@.len() ==> (#[trigger] old(
                                game,
                            ).states@[s]).change_count >= cnt_val(
                                self.members_of(index as int),
                                s,
                                self.members_of(index as int).len() as int,
                            ),
                        add ==> forall|s: int|
                            0 <= s < game.states@.len() ==> (#[trigger] game.states@[s]) == (State {
                                owner: if cnt_val(self.members_of(index as int), s, j as int) > 0 {
                                    Player::Safe
                                } else {
                                    old(game).states@[s].owner
                                },
                                change_count: (old(game).states@[s].change_count + cnt_val(
                                    self.members_of(index as int),
                                    s,
                                    j as int,
                                )) as usize,
                                ..old(game).states@[s]
                            }),
                        !add ==> forall|s: int|
                            0 <= s < game.states@.len() ==> (#[trigger] game.states@[s]) == (State {
                                owner: if old(game).states@[s].change_count == cnt_val(
                                    self.members_of(index as int),
                                    s,
                                    j as int,
                                ) && cnt_val(self.members_of(index as int), s, j as int) > 0 {
                                    old(game).states@[s].default_owner
                                } else {
                                    old(game).states@[s].owner
                                },
                                change_count: (old(game).states@[s].change_count - cnt_val(
                                    self.members_of(index as int),
                                    s,
                                    j as int,
                                )) as usize,
                                ..old(game).states@[s]
                            }),
                    decreases count - j,
                {
                    let m = members[j];
                    proof {
                        let p = self.members_of(index as int);
                        lemma_cnt_val_mono(p, m as int, j + 1, p.len() as int);
                        if !add {
                            lemma_cnt_val_mono(p, m as int, j as int, j + 1);
                        }
                    }
                    game.add_or_remove_to_coalition(m, add);
                    j = j + 1;
                }
            },
        }
    }

    /// Adds every player whose bit is set in `mask` to the coalition.
    pub fn set_state_mask(&self, game: &mut Game, state_mask: u64)
        requires
            self.spec_len() <= 64,
            self.valid_for(old(game)),
            forall|s: int|
                0 <= s < old(game).states@.len() ==> (#[trigger] old(
                    game,
                ).states@[s]).change_count + self.mask_count(state_mask, s) <= usize::MAX,
        ensures
            self.mask_set_applied(state_mask, *old(game), *final(game)),
    {
        self.set_or_clear_state_mask(game, state_mask, true);
    }

    /// Removes every player whose bit is set in `mask` from the coalition.
    pub fn clear_state_mask(&self, game: &mut Game, state_mask: u64)
        requires
            self.spec_len() <= 64,
            self.valid_for(old(game)),
            forall|s: int|
                0 <= s < old(game).states@.len() ==> (#[trigger] old(
                    game,
                ).states@[s]).change_count >= self.mask_count(state_mask, s),
        ensures
            self.mask_cleared_applied(state_mask, *old(game), *final(game)),
    {
        self.set_or_clear_state_mask(game, state_mask, false);
    }

    /// Adds or removes every player selected by `state_mask`.
    pub fn set_or_clear_state_mask(&self, game: &mut Game, state_mask: u64, set: bool)
        requires
            self.spec_len() <= 64,
            self.valid_for(old(game)),
            set ==> forall|s: int|
                0 <= s < old(game).states@.len() ==> (#[trigger] old(
                    game,
                ).states@[s]).change_count + self.mask_count(state_mask, s) <= usize::MAX,
            !set ==> forall|s: int|
                0 <= s < old(game).states@.len() ==> (#[trigger] old(
                    game,
                ).states@[s]).change_count >= self.mask_count(state_mask, s),
        ensures
            set ==> self.mask_set_applied(state_mask, *old(game), *final(game)),
            !set ==> self.mask_cleared_applied(state_mask, *old(game), *final(game)),
    {
        let n = self.len();
        let mut i: usize = 0;
        while i < n
            invariant
                i <= n,
                n == self.spec_len(),
                n <= 64,
                self.valid_for(old(game)),
                game.states@.len() == old(game).states@.len(),
                game.same_but_coalition(old(game)),
                set ==> forall|s: int|
                    0 <= s < old(game).states@.len() ==> (#[trigger] old(
                        game,
                    ).states@[s]).change_count + self.mask_count(state_mask, s) <= usize::MAX,
                !set ==> forall|s: int|
                    0 <= s < old(game).states@.len() ==> (#[trigger] old(
                        game,
                    ).states@[s]).change_count >= self.mask_count(state_mask, s),
                set ==> forall|s: int|
                    0 <= s < game.states@.len() ==> (#[trigger] game.states@[s]) == (State {
                        owner: if self.mask_count_upto(state_mask, s, i as int) > 0 {
                            Player::Safe
                        } else {
                            old(game).states@[s].owner
                        },
                        change_count: (old(game).states@[s].change_count + self.mask_count_upto(
                            state_mask,
                            s,
                            i as int,
                        )) as usize,
                        ..old(game).states@[s]
                    }),
                !set ==> forall|s: int|
                    0 <= s < game.states@.len() ==> (#[trigger] game.states@[s]) == (State {
                        owner: if old(game).states@[s].change_count == self.mask_count_upto(
                            state_mask,
                            s,
                            i as int,
                        ) && self.mask_count_upto(state_mask, s, i as int) > 0 {
                            old(game).states@[s].default_owner
                        } else {
                            old(game).states@[s].owner
                        },
                        change_count: (old(game).states@[s].change_count - self.mask_count_upto(
                            state_mask,
                            s,
                            i as int,
                        )) as usize,
                        ..old(game).states@[s]
                    }),
            decreases n - i,
        {
            let selected = state_mask & (1u64 << (i as u64)) != 0;
            if selected {
                let ghost gmid = *game;
                proof {
                    assert forall|s: int| 0 <= s < game.states@.len() implies (set ==> (
                    #[trigger] game.states@[s]).change_count + cnt_val(
                        self.members_of(i as int),
                        s,
                        self.members_of(i as int).len() as int,
                    ) <= usize::MAX) && (!set ==> game.states@[s].change_count >= cnt_val(
                        self.members_of(i as int),
                        s,
                        self.members_of(i as int).len() as int,
                    )) by {
                        self.lemma_mask_count_mono(state_mask, s, i + 1, self.spec_len());
                    }
                }
                self.add_or_remove_to_coalition(game, i, set);
                proof {
                    if set {
                        assert forall|s: int| 0 <= s < game.states@.len() implies (
                        #[trigger] game.states@[s]) == (State {
                            owner: if self.mask_count_upto(state_mask, s, i + 1) > 0 {
                                Player::Safe
                            } else {
                                old(game).states@[s].owner
                            },
                            change_count: (old(game).states@[s].change_count
                                + self.mask_count_upto(state_mask, s, i + 1)) as usize,
                            ..old(game).states@[s]
                        }) by {
                            self.lemma_mask_count_mono(state_mask, s, i + 1, self.spec_len());
                            assert(gmid.states@[s] == (State {
                                owner: if self.mask_count_upto(state_mask, s, i as int) > 0 {
                                    Player::Safe
                                } else {
                                    old(game).states@[s].owner
                                },
                                change_count: (old(game).states@[s].change_count
                                    + self.mask_count_upto(state_mask, s, i as int)) as usize,
                                ..old(game).states@[s]
                            }));
                        }
                    } else {
                        assert forall|s: int| 0 <= s < game.states@.len() implies (
                        #[trigger] game.states@[s]) == (State {
                            owner: if old(game).states@[s].change_count == self.mask_count_upto(
                                state_mask,
                                s,
                                i + 1,
                            ) && self.mask_count_upto(state_mask, s, i + 1) > 0 {
                                old(game).states@[s].default_owner
                            } else {
                                old(game).states@[s].owner
                            },
                            change_count: (old(game).states@[s].change_count
                                - self.mask_count_upto(state_mask, s, i + 1)) as usize,
                            ..old(game).states@[s]
                        }) by {
                            self.lemma_mask_count_mono(state_mask, s, i + 1, self.spec_len());
                            self.lemma_mask_count_mono(state_mask, s, i as int, i + 1);
                            assert(gmid.states@[s] == (State {
                                owner: if old(game).states@[s].change_count
                                    == self.mask_count_upto(state_mask, s, i as int)
                                    && self.mask_count_upto(state_mask, s, i as int) > 0 {
                                    old(game).states@[s].default_owner
                                } else {
                                    old(game).states@[s].owner
                                },
                                change_count: (old(game).states@[s].change_count
                                    - self.mask_count_upto(state_mask, s, i as int)) as usize,
                                ..old(game).states@[s]
                            }));
                        }
                    }
                }
            }
            i = i + 1;
        }
    }
}

/// Setting any coalition mask and then clearing the same mask restores
/// every state exactly: owner, change count and attractor counter are all
/// back to their pre-call values.
pub proof fn lemma_mask_roundtrip(groups: StateGroups, mask: u64, g0: Game, g1: Game, g2: Game)
    requires
        g0.coalition_inv(),
        forall|s: int|
            0 <= s < g0.states@.len() ==> (#[trigger] g0.states@[s]).change_count
                + groups.mask_count(mask, s) <= usize::MAX,
        groups.mask_set_applied(mask, g0, g1),
        groups.mask_cleared_applied(mask, g1, g2),
    ensures
        g2.states@ =~= g0.states@,
        g2.initial_state == g0.initial_state,
        g2.state_predecessors == g0.state_predecessors,
        g2.bad_states == g0.bad_states,
        g2.labels == g0.labels,
{
    assert forall|s: int| 0 <= s < g2.states@.len() implies g2.states@[s] == g0.states@[s] by {
        assert(g1.states@[s].change_count == g0.states@[s].change_count + groups.mask_count(
            mask,
            s,
        ));
    }
}

/// Adding one player to the coalition and removing it again also restores
/// the game exactly.
pub proof fn lemma_player_roundtrip(groups: StateGroups, i: int, g0: Game, g1: Game, g2: Game)
    requires
        g0.coalition_inv(),
        0 <= i < groups.spec_len(),
        forall|s: int|
            0 <= s < g0.states@.len() ==> (#[trigger] g0.states@[s]).change_count + cnt_val(
                groups.members_of(i),
                s,
                groups.members_of(i).len() as int,
            ) <= usize::MAX,
        groups.adds_applied(i, g0, g1),
        groups.removes_applied(i, g1, g2),
    ensures
        g2.states@ =~= g0.states@,
        g2.initial_state == g0.initial_state,
        g2.state_predecessors == g0.state_predecessors,
        g2.bad_states == g0.bad_states,
        g2.labels == g0.labels,
{
    assert forall|s: int| 0 <= s < g2.states@.len() implies g2.states@[s] == g0.states@[s] by {
        let p = groups.members_of(i);
        assert(g1.states@[s].change_count == g0.states@[s].change_count + cnt_val(
            p,
            s,
            p.len() as int,
        ));
    }
}

/// Both coalition application styles keep the reference-counting invariant.
pub proof fn lemma_mask_set_coalition_inv(groups: StateGroups, mask: u64, g0: Game, g1: Game)
    requires
        g0.coalition_inv(),
        forall|s: int|
            0 <= s < g0.states@.len() ==> (#[trigger] g0.states@[s]).change_count
                + groups.mask_count(mask, s) <= usize::MAX,
        groups.mask_set_applied(mask, g0, g1),
    ensures
        g1.coalition_inv(),
{
}

pub proof fn lemma_mask_cleared_coalition_inv(groups: StateGroups, mask: u64, g0: Game, g1: Game)
    requires
        g0.coalition_inv(),
        forall|s: int|
            0 <= s < g0.states@.len() ==> (#[trigger] g0.states@[s]).change_count
                >= groups.mask_count(mask, s),
        groups.mask_cleared_applied(mask, g0, g1),
    ensures
        g1.coalition_inv(),
{
}

impl StateGroups {
    /// One player per significant state of the game.
    pub fn individual_from_game(game: &Game) -> (r: StateGroups)
        ensures
            r is Individual,
            forall|s: int|
                0 <= s < game.states@.len() ==> (crate::game::seq_has(
                    match r {
                        StateGroups::Individual { state_indices } => state_indices@,
                        StateGroups::Grouped { .. } => arbitrary(),
                    },
                    s,
                ) <==> (game.states@[s].successor_count > 1 && !crate::game::seq_has(
                    game.bad_states@,
                    s,
                ))),
            r.valid_for(game),
    {
        let state_indices = game.get_significant_states();
        let r = StateGroups::Individual { state_indices };
        proof {
            assert forall|i: int, j: int|
                0 <= i < r.spec_len() && 0 <= j < r.members_of(i).len() implies (
            #[trigger] r.members_of(i)[j]) < game.states@.len() by {
                assert(r.members_of(i)[0] == match r {
                    StateGroups::Individual { state_indices } => state_indices@[i],
                    StateGroups::Grouped { .. } => arbitrary(),
                });
            }
        }
        r
    }

    /// One player per state on the counterexample path (states whose
    /// default owner is `Path`).
    pub fn individual_on_path(game: &Game) -> (r: StateGroups)
        ensures
            r is Individual,
            forall|s: int|
                0 <= s < game.states@.len() ==> (crate::game::seq_has(
                    match r {
                        StateGroups::Individual { state_indices } => state_indices@,
                        StateGroups::Grouped { .. } => arbitrary(),
                    },
                    s,
                ) <==> game.states@[s].default_owner == Player::Path),
            r.valid_for(game),
            forall|i1: int, i2: int|
                0 <= i1 < i2 < r.spec_len() ==> #[trigger] r.members_of(i1)[0]
                    < #[trigger] r.members_of(i2)[0],
    {
        let mut state_indices: Vec<usize> = Vec::new();
        let n = game.states.len();
        let mut i: usize = 0;
        while i < n
            invariant
                i <= n,
                n == game.states@.len(),
                forall|s: int|
                    (crate::game::seq_has(state_indices@, s) <==> (0 <= s < i
                        && game.states@[s].default_owner == Player::Path)),
                forall|k: int|
                    0 <= k < state_indices@.len() ==> (#[trigger] state_indices@[k]) < i,
                forall|k1: int, k2: int|
                    0 <= k1 < k2 < state_indices@.len() ==> state_indices@[k1]
                        < state_indices@[k2],
            decreases n - i,
        {
            let is_path = match game.states[i].default_owner {
                Player::Path => true,
                Player::Reach => false,
                Player::Safe => false,
            };
            let ghost before = state_indices@;
            if is_path {
                state_indices.push(i);
            }
            proof {
                assert forall|s: int| (crate::game::seq_has(state_indices@, s) <==> (0 <= s < i + 1
                    && game.states@[s].default_owner == Player::Path)) by {
                    if is_path {
                        crate::game::lemma_seq_has_push(before, i, s);
                    } else {
                        if s == i {
                            if crate::game::seq_has(state_indices@, s) {
                                let w = choose|w: int|
                                    0 <= w < state_indices@.len() && state_indices@[w] == s;
                            }
                        }
                    }
                }
            }
            i = i + 1;
        }
        let r = StateGroups::Individual { state_indices };
        proof {
            assert forall|i2: int, j: int|
                0 <= i2 < r.spec_len() && 0 <= j < r.members_of(i2).len() implies (
            #[trigger] r.members_of(i2)[j]) < game.states@.len() by {
                assert(r.members_of(i2)[0] == match r {
                    StateGroups::Individual { state_indices } => state_indices@[i2],
                    StateGroups::Grouped { .. } => arbitrary(),
                });
            }
            assert forall|i1: int, i2: int| 0 <= i1 < i2 < r.spec_len() implies #[trigger] r.members_of(
                i1,
            )[0] < #[trigger] r.members_of(i2)[0] by {
                assert(r.members_of(i1)[0] == state_indices@[i1]);
                assert(r.members_of(i2)[0] == state_indices@[i2]);
            }
        }
        r
    }

    /// One player per label that has at least one member state, in label
    /// order.
    pub fn grouped_by_label_from_game(game: &Game) -> (r: StateGroups)
        requires
            game.wf(),
            forall|l: int, j: int|
                0 <= l < game.labels@.len() && 0 <= j < game.labels@[l].states@.len() ==> (
                #[trigger] game.labels@[l].states@[j]) < game.states@.len(),
        ensures
            r is Grouped,
            r.valid_for(game),
            exists|sel: Seq<int>| #[trigger] is_label_selection(game, &r, sel),
    {
        let mut groups: Vec<StateGroup> = Vec::new();
        let ghost mut sel: Seq<int> = Seq::empty();
        let ln = game.labels.len();
        let mut l: usize = 0;
        while l < ln
            invariant
                l <= ln,
                ln == game.labels@.len(),
                game.wf(),
                forall|l2: int, j: int|
                    0 <= l2 < game.labels@.len() && 0 <= j < game.labels@[l2].states@.len() ==> (
                    #[trigger] game.labels@[l2].states@[j]) < game.states@.len(),
                groups@.len() == sel.len(),
                forall|k1: int, k2: int| 0 <= k1 < k2 < sel.len() ==> sel[k1] < sel[k2],
                forall|k: int| 0 <= k < sel.len() ==> 0 <= (#[trigger] sel[k]) < l,
                forall|k: int|
                    0 <= k < sel.len() ==> ((#[trigger] groups@[k]).name
                        == game.labels@[sel[k]].name && groups@[k].members@
                        == game.labels@[sel[k]].states@ && game.labels@[sel[k]].states@.len() > 0),
                forall|l2: int|
                    0 <= l2 < l && game.labels@[l2].states@.len() > 0 ==> exists|k: int|
                        0 <= k < sel.len() && (#[trigger] sel[k]) == l2,
            decreases ln - l,
        {
            if game.labels[l].states.len() > 0 {
                let name = game.labels[l].name.clone();
                let members = clone_usize_vec(&game.labels[l].states);
                let ghost sel0 = sel;
                let ghost groups0 = groups@;
                proof {
                    sel = sel.push(l as int);
                }
                groups.push(StateGroup { name, members });
                proof {
                    assert(sel[sel.len() - 1] == l as int);
                    assert(groups@[groups@.len() - 1].members@ == game.labels@[l as int].states@);
                    assert forall|l2: int|
                        0 <= l2 < l + 1 && game.labels@[l2].states@.len() > 0 implies exists|
                        k: int,
                    | 0 <= k < sel.len() && (#[trigger] sel[k]) == l2 by {
                        if l2 == l as int {
                            assert(sel[sel.len() - 1] == l2);
                        } else {
                            let k0 = choose|k: int| 0 <= k < sel0.len() && (#[trigger] sel0[k]) == l2;
                            assert(sel[k0] == l2);
                        }
                    }
                }
            }
            l = l + 1;
        }
        let r = StateGroups::Grouped { groups };
        proof {
            assert(is_label_selection(game, &r, sel));
            assert forall|i: int, j: int|
                0 <= i < r.spec_len() && 0 <= j < r.members_of(i).len() implies (
            #[trigger] r.members_of(i)[j]) < game.states@.len() by {
                assert(r.members_of(i) == game.labels@[sel[i]].states@);
            }
        }
        r
    }

    /// The display name of player `index`: the state's rendered valuation
    /// for individual players, the label's name for grouped ones.
    pub fn get_name(&self, index: usize, transition_system: &TransitionSystem) -> (name: String)
        requires
            0 <= index < self.spec_len(),
            self matches StateGroups::Individual { state_indices } ==> {
                let s = state_indices@[index as int];
                &&& s < transition_system.states@.len()
                &&& transition_system.states@[s as int].valuation_indices@.len()
                    <= transition_system.variables@.len()
                &&& forall|v: int|
                    0 <= v < transition_system.states@[s as int].valuation_indices@.len() ==> (
                    #[trigger] transition_system.states@[s as int].valuation_indices@[v])
                        < transition_system.variables@[v].valuation_names@.len()
            },
        ensures
            match self {
                StateGroups::Individual { state_indices } => name@
                    == transition_system.states@[state_indices@[index as int] as int].spec_to_string(
                    transition_system.variables@,
                ),
                StateGroups::Grouped { groups } => name == groups@[index as int].name,
            },
    {
        match self {
            StateGroups::Individual { state_indices } => {
                let s = state_indices[index];
                transition_system.states[s].to_string(&transition_system.variables)
            },
            StateGroups::Grouped { groups } => groups[index].name.clone(),
        }
    }
}


/// The two groupings describe the same players: same kind, same length,
/// the same member states and the same names.
pub open spec fn groups_equiv(a: &StateGroups, b: &StateGroups) -> bool {
    &&& a.spec_len() == b.spec_len()
    &&& (a is Individual <==> b is Individual)
    &&& forall|i: int| 0 <= i < a.spec_len() ==> #[trigger] a.members_of(i) == b.members_of(i)
    &&& forall|i: int|
        0 <= i < a.spec_len() ==> #[trigger] a.members_of(i) == a.members_of(i) && (match (
        a,
        b,
    ) {
            (StateGroups::Grouped { groups: ga }, StateGroups::Grouped { groups: gb }) => ga@[i].name@ == gb@[i].name@,
            _ => true,
        })
}

pub proof fn lemma_groups_equiv_mask_count(a: &StateGroups, b: &StateGroups, mask: u64, s: int, k: int)
    requires
        groups_equiv(a, b),
        0 <= k <= a.spec_len(),
    ensures
        a.mask_count_upto(mask, s, k) == b.mask_count_upto(mask, s, k),
    decreases k,
{
    if k > 0 {
        lemma_groups_equiv_mask_count(a, b, mask, s, k - 1);
    }
}

impl StateGroups {
    /// An element-by-element copy describing the same players.
    pub fn clone_groups(&self) -> (r: StateGroups)
        ensures
            groups_equiv(self, &r),
    {
        match self {
            StateGroups::Individual { state_indices } => {
                let r = StateGroups::Individual { state_indices: clone_usize_vec(state_indices) };
                proof {
                    assert forall|i: int| 0 <= i < self.spec_len() implies #[trigger] self.members_of(
                        i,
                    ) == r.members_of(i) by {
                        assert(self.members_of(i) =~= r.members_of(i));
                    }
                }
                r
            },
            StateGroups::Grouped { groups } => {
                let mut out: Vec<StateGroup> = Vec::new();
                let n = groups.len();
                let mut i: usize = 0;
                while i < n
                    invariant
                        i <= n,
                        n == groups@.len(),
                        out@.len() == i,
                        forall|k: int|
                            0 <= k < i ==> (#[trigger] out@[k]).members@ == groups@[k].members@
                                && out@[k].name@ == groups@[k].name@,
                    decreases n - i,
                {
                    out.push(
                        StateGroup {
                            name: groups[i].name.clone(),
                            members: clone_usize_vec(&groups[i].members),
                        },
                    );
                    i = i + 1;
                }
                let r = StateGroups::Grouped { groups: out };
                r
            },
        }
    }
}

/// `sel` lists, in increasing order, the labels with members; group `k` of
/// `r` carries the name and the member states of label `sel[k]`.
pub open spec fn is_label_selection(game: &Game, r: &StateGroups, sel: Seq<int>) -> bool {
    &&& r.spec_len() == sel.len()
    &&& forall|k1: int, k2: int| 0 <= k1 < k2 < sel.len() ==> sel[k1] < sel[k2]
    &&& forall|k: int| 0 <= k < sel.len() ==> 0 <= (#[trigger] sel[k]) < game.labels@.len()
    &&& forall|k: int|
        0 <= k < sel.len() ==> #[trigger] sel[k] == sel[k] && (match r {
            StateGroups::Grouped { groups } => groups@[k].name == game.labels@[sel[k]].name
                && groups@[k].members@ == game.labels@[sel[k]].states@
                && game.labels@[sel[k]].states@.len() > 0,
            StateGroups::Individual { .. } => false,
        })
    &&& forall|l2: int|
        0 <= l2 < game.labels@.len() && game.labels@[l2].states@.len() > 0 ==> exists|k: int|
            0 <= k < sel.len() && (#[trigger] sel[k]) == l2
}

/// An element-by-element copy of an index vector.
pub fn clone_usize_vec(v: &Vec<usize>) -> (r: Vec<usize>)
    ensures
        r@ =~= v@,
{
    let mut r: Vec<usize> = Vec::new();
    let n = v.len();
    let mut i: usize = 0;
    while i < n
        invariant
            i <= n,
            n == v@.len(),
            r@ =~= v@.take(i as int),
        decreases n - i,
    {
        r.push(v[i]);
        i = i + 1;
    }
    proof {
        assert(v@.take(n as int) =~= v@);
    }
    r
}

} // verus!
