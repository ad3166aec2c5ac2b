//! The two-and-a-half-player reachability game derived from a transition
//! system and a counterexample.
//!
//! Each state carries an owner: `Reach` tries to force a bad state, `Safe`
//! (the coalition) tries to avoid them, and `Path` replays the counterexample
//! through its single marked on-path successor. Coalition membership is
//! reference-counted through `change_count`, so overlapping label groups can
//! add and remove the same state independently; the invariant
//! [`Game::coalition_inv`] ties `owner` to that count. The winner is decided
//! by the counting attractor in [`Game::determine_winner`].

use vstd::prelude::*;
use vstd::string::StringExecFns;
use crate::groups::StateGroups;
use crate::transition_systems::TransitionSystem;

verus! {

/// The three roles a game state can take: the reachability player, the
/// safety coalition, or the fixed counterexample path.
#[derive(Copy, Clone, Debug, Eq, PartialEq, Structural)]
pub enum Player {
    Reach,
    Safe,
    Path,
}

#[derive(Copy, Clone)]
pub struct State {
    pub successor_count: usize,
    pub owner: Player,
    pub default_owner: Player,
    pub attractor_count: usize,
    /// How many active groupings currently place this state in the safe
    /// coalition; the owner returns to `default_owner` only at zero.
    pub change_count: usize,
}

impl State {
    pub fn new(owner: Player) -> (s: State)
        ensures
            s == (State {
                successor_count: 0,
                owner,
                default_owner: owner,
                attractor_count: 0,
                change_count: 0,
            }),
    {
        State { successor_count: 0, owner, default_owner: owner, attractor_count: 0, change_count: 0 }
    }
}

/// A predecessor entry: one incoming transition, from `source`, marked when
/// it is the transition the counterexample takes.
#[derive(Copy, Clone)]
pub struct Transition {
    pub source: usize,
    pub on_path: bool,
}

impl Transition {
    pub fn new(source: usize) -> (t: Transition)
        ensures
            t == (Transition { source, on_path: false }),
    {
        Transition { source, on_path: false }
    }
}

pub struct StatePredecessors {
    pub predecessors: Vec<Transition>,
}

pub struct Label {
    pub name: String,
    pub states: Vec<usize>,
}

impl Label {
    pub fn new(name: String) -> (l: Label)
        ensures
            l.name == name,
            l.states@.len() == 0,
    {
        Label { name, states: Vec::new() }
    }
}

/// Why marking the counterexample path failed: the consecutive pair at
/// `position` matched `matched` predecessor entries instead of exactly one.
#[derive(Copy, Clone, Debug, Eq, PartialEq, Structural)]
pub struct PathMarkError {
    pub position: usize,
    pub matched: usize,
}

pub struct Game {
    pub initial_state: usize,
    pub states: Vec<State>,
    pub state_predecessors: Vec<StatePredecessors>,
    pub bad_states: Vec<usize>,
    pub labels: Vec<Label>,
}

/// Does the sequence contain the value `s`?
pub open spec fn seq_has(ce: Seq<usize>, s: int) -> bool {
    exists|i: int| 0 <= i < ce.len() && ce[i] == s
}

/// Is `u -> t` one of the counterexample's consecutive pairs?
pub open spec fn ce_edge(ce: Seq<usize>, u: int, t: int) -> bool {
    exists|i: int| 0 <= i < ce.len() - 1 && (#[trigger] ce[i]) == u && ce[i + 1] == t
}

/// Like [`ce_edge`], restricted to pairs starting before `bound`.
pub open spec fn ce_edge_upto(ce: Seq<usize>, u: int, t: int, bound: int) -> bool {
    exists|i: int| 0 <= i < bound && i < ce.len() - 1 && (#[trigger] ce[i]) == u && ce[i + 1] == t
}

pub proof fn lemma_seq_has_take_step(v: Seq<usize>, i: int, s: int)
    requires
        0 < i <= v.len(),
    ensures
        seq_has(v.take(i), s) <==> (seq_has(v.take(i - 1), s) || v[i - 1] == s),
{
    if seq_has(v.take(i), s) {
        let w = choose|w: int| 0 <= w < v.take(i).len() && (#[trigger] v.take(i)[w]) == s;
        if w < i - 1 {
            assert(v.take(i - 1)[w] == s);
        } else {
            assert(v[i - 1] == s);
        }
    }
    if seq_has(v.take(i - 1), s) {
        let w = choose|w: int| 0 <= w < v.take(i - 1).len() && (#[trigger] v.take(i - 1)[w]) == s;
        assert(v.take(i)[w] == s);
    }
    if v[i - 1] == s {
        assert(v.take(i)[i - 1] == s);
    }
}

pub proof fn lemma_seq_has_push(v: Seq<usize>, x: usize, s: int)
    ensures
        seq_has(v.push(x), s) <==> (seq_has(v, s) || x == s),
{
    if seq_has(v.push(x), s) {
        let w = choose|w: int| 0 <= w < v.push(x).len() && (#[trigger] v.push(x)[w]) == s;
        if w < v.len() {
            assert(v[w] == s);
        }
    }
    if seq_has(v, s) {
        let w = choose|w: int| 0 <= w < v.len() && v[w] == s;
        assert(v.push(x)[w] == s);
    }
    if x == s {
        assert(v.push(x)[v.len() as int] == s);
    }
}

/// Number of entries among the first `j` of `p` whose source is `u`.
pub open spec fn cnt_src(p: Seq<Transition>, u: int, j: int) -> nat
    decreases j,
{
    if j <= 0 {
        0
    } else {
        cnt_src(p, u, j - 1) + if p[j - 1].source == u {
            1nat
        } else {
            0nat
        }
    }
}


/// Does the sequence contain `s` among its first `bound` entries?
pub open spec fn seq_has_upto(v: Seq<usize>, s: int, bound: int) -> bool {
    exists|i: int| 0 <= i < bound && i < v.len() && v[i] == s
}

pub proof fn lemma_seq_has_upto_step(v: Seq<usize>, s: int, j: int)
    requires
        0 <= j < v.len(),
    ensures
        seq_has_upto(v, s, j + 1) <==> (seq_has_upto(v, s, j) || v[j] == s),
{
    if seq_has_upto(v, s, j + 1) {
        let w = choose|w: int| 0 <= w < j + 1 && w < v.len() && v[w] == s;
        if w < j {
            assert(seq_has_upto(v, s, j));
        }
    }
}

pub proof fn lemma_seq_has_full(v: Seq<usize>, s: int)
    ensures
        seq_has_upto(v, s, v.len() as int) <==> seq_has(v, s),
{
}

/// Number of destinations equal to `t` among the first `j` outgoing
/// transitions.
pub open spec fn cnt_dst(
    p: Seq<crate::transition_systems::Transition>,
    t: int,
    j: int,
) -> nat
    decreases j,
{
    if j <= 0 {
        0
    } else {
        cnt_dst(p, t, j - 1) + if p[j - 1].destination == t {
            1nat
        } else {
            0nat
        }
    }
}

/// Appending an entry leaves every strict-prefix count unchanged.
pub proof fn lemma_cnt_src_push(p: Seq<Transition>, e: Transition, u: int, j: int)
    requires
        0 <= j <= p.len(),
    ensures
        cnt_src(p.push(e), u, j) == cnt_src(p, u, j),
    decreases j,
{
    if j > 0 {
        lemma_cnt_src_push(p, e, u, j - 1);
    }
}

/// The full count after a push grows exactly by the new entry's match.
pub proof fn lemma_cnt_src_push_full(p: Seq<Transition>, e: Transition, u: int)
    ensures
        cnt_src(p.push(e), u, p.len() as int + 1) == cnt_src(p, u, p.len() as int) + if e.source == u {
            1nat
        } else {
            0nat
        },
{
    lemma_cnt_src_push(p, e, u, p.len() as int);
}

/// Number of states among the first `j` whose attractor counter is
/// positive; the termination measure of the attractor worklist.
pub open spec fn num_positive(s: Seq<State>, j: int) -> nat
    decreases j,
{
    if j <= 0 {
        0
    } else {
        num_positive(s, j - 1) + if s[j - 1].attractor_count > 0 {
            1nat
        } else {
            0nat
        }
    }
}

pub proof fn lemma_num_positive_update(s: Seq<State>, i: int, x: State, j: int)
    requires
        0 <= i < s.len(),
        j <= s.len(),
    ensures
        i < j ==> num_positive(s.update(i, x), j) + (if s[i].attractor_count > 0 {
            1int
        } else {
            0int
        }) == num_positive(s, j) + (if x.attractor_count > 0 {
            1int
        } else {
            0int
        }),
        i >= j ==> num_positive(s.update(i, x), j) == num_positive(s, j),
    decreases j,
{
    if j > 0 {
        lemma_num_positive_update(s, i, x, j - 1);
    }
}

/// Structural well-formedness only reads the predecessor lists, the bad
/// list, the initial index and the state count, so it carries over to any
/// game that keeps those.
pub proof fn lemma_wf_preserved(a: Game, b: Game)
    requires
        a.wf(),
        b.state_predecessors == a.state_predecessors,
        b.bad_states == a.bad_states,
        b.initial_state == a.initial_state,
        b.states@.len() == a.states@.len(),
    ensures
        b.wf(),
{
    assert forall|t: int, j: int|
        0 <= t < b.n() && 0 <= j < b.preds_of(t).len() implies (#[trigger] b.preds_of(
        t,
    )[j]).source < b.states@.len() by {
        assert(b.preds_of(t) == a.preds_of(t));
        assert(a.preds_of(t)[j].source < a.states@.len());
    }
}


/// The input invariants game construction relies on: a valid initial index,
/// in-range transition destinations, every state label listed in the label
/// table, and distinct label indices.
pub open spec fn suitable_game_input(ts: &TransitionSystem) -> bool {
    &&& ts.initial_state < ts.states@.len()
    &&& forall|s: int, j: int|
        0 <= s < ts.states@.len() && 0 <= j < ts.states@[s].outgoing_transitions@.len() ==> (
        #[trigger] ts.states@[s].outgoing_transitions@[j]).destination < ts.states@.len()
    &&& forall|s: int, j: int|
        0 <= s < ts.states@.len() && 0 <= j < ts.states@[s].labels@.len() ==> exists|k: int|
            0 <= k < ts.label_names@.len() && (#[trigger] ts.label_names@[k]).0 == (
            #[trigger] ts.states@[s].labels@[j])
    &&& forall|k1: int, k2: int|
        0 <= k1 < k2 < ts.label_names@.len() ==> (#[trigger] ts.label_names@[k1]).0 != (
        #[trigger] ts.label_names@[k2]).0
}

/// Position of the label with PRISM index `l` in the label table.
fn find_label_position(label_names: &Vec<(usize, String)>, l: usize) -> (k: Option<usize>)
    ensures
        match k {
            Some(k) => k < label_names@.len() && label_names@[k as int].0 == l,
            None => forall|kk: int|
                0 <= kk < label_names@.len() ==> (#[trigger] label_names@[kk]).0 != l,
        },
{
    let n = label_names.len();
    let mut k: usize = 0;
    while k < n
        invariant
            k <= n,
            n == label_names@.len(),
            forall|kk: int| 0 <= kk < k ==> (#[trigger] label_names@[kk]).0 != l,
        decreases n - k,
    {
        if label_names[k].0 == l {
            return Some(k);
        }
        k = k + 1;
    }
    None
}

/// Number of predecessor entries of `preds` whose source is `src`.
pub fn count_sources(preds: &Vec<Transition>, src: usize) -> (c: usize)
    ensures
        c == cnt_src(preds@, src as int, preds@.len() as int),
{
    let n = preds.len();
    let mut c: usize = 0;
    let mut i: usize = 0;
    while i < n
        invariant
            i <= n,
            n == preds@.len(),
            c == cnt_src(preds@, src as int, i as int),
            c <= i,
        decreases n - i,
    {
        if preds[i].source == src {
            c = c + 1;
        }
        i = i + 1;
    }
    c
}


/// Number of destinations below `tbound`, counted per target: summing the
/// per-target destination counts over all targets.
pub open spec fn sum_dst_upto(
    p: Seq<crate::transition_systems::Transition>,
    j: int,
    tbound: int,
) -> nat
    decreases tbound,
{
    if tbound <= 0 {
        0
    } else {
        sum_dst_upto(p, j, tbound - 1) + cnt_dst(p, tbound - 1, j)
    }
}

/// One more transition raises exactly its destination's count.
pub proof fn lemma_sum_dst_step(
    p: Seq<crate::transition_systems::Transition>,
    j: int,
    tbound: int,
)
    requires
        1 <= j <= p.len(),
        0 <= tbound,
    ensures
        sum_dst_upto(p, j, tbound) == sum_dst_upto(p, j - 1, tbound) + if 0 <= p[j - 1].destination
            < tbound {
            1nat
        } else {
            0nat
        },
    decreases tbound,
{
    if tbound > 0 {
        lemma_sum_dst_step(p, j, tbound - 1);
    }
}

/// With all destinations in range, the per-target counts sum to the number
/// of transitions.
pub proof fn lemma_sum_dst_total(
    p: Seq<crate::transition_systems::Transition>,
    j: int,
    tbound: int,
)
    requires
        0 <= j <= p.len(),
        forall|i: int| 0 <= i < p.len() ==> (#[trigger] p[i]).destination < tbound,
        0 <= tbound,
    ensures
        sum_dst_upto(p, j, tbound) == j,
    decreases j,
{
    if j == 0 {
        lemma_sum_dst_zero(p, tbound);
    } else {
        lemma_sum_dst_total(p, j - 1, tbound);
        lemma_sum_dst_step(p, j, tbound);
    }
}

pub proof fn lemma_sum_dst_zero(p: Seq<crate::transition_systems::Transition>, tbound: int)
    requires
        0 <= tbound,
    ensures
        sum_dst_upto(p, 0, tbound) == 0,
    decreases tbound,
{
    if tbound > 0 {
        lemma_sum_dst_zero(p, tbound - 1);
    }
}

/// When each predecessor row counts a state's edges the way its outgoing
/// list does, the row-sums agree.
pub proof fn lemma_edges_match_outgoing(
    g: &Game,
    p: Seq<crate::transition_systems::Transition>,
    u: int,
    bound: int,
)
    requires
        0 <= bound,
        forall|t: int|
            0 <= t < bound ==> cnt_src(#[trigger] g.preds_of(t), u, g.preds_of(t).len() as int)
                == cnt_dst(p, t, p.len() as int),
    ensures
        edges_from_upto(g, u, bound) == sum_dst_upto(p, p.len() as int, bound),
    decreases bound,
{
    if bound > 0 {
        lemma_edges_match_outgoing(g, p, u, bound - 1);
    }
}

/// Edge counts only read the predecessor rows' sources, so they carry over
/// to any game with the same rows (by view) and the same length.
pub proof fn lemma_edges_congr(a: &Game, b: &Game, u: int, bound: int)
    requires
        0 <= bound <= a.states@.len(),
        b.states@.len() == a.states@.len(),
        forall|t: int|
            0 <= t < a.states@.len() ==> (#[trigger] b.preds_of(t)).len() == a.preds_of(t).len(),
        forall|t: int, j: int|
            0 <= t < a.states@.len() && 0 <= j < a.preds_of(t).len() ==> (#[trigger] b.preds_of(
                t,
            )[j]).source == a.preds_of(t)[j].source,
    ensures
        edges_from_upto(b, u, bound) == edges_from_upto(a, u, bound),
    decreases bound,
{
    if bound > 0 {
        lemma_edges_congr(a, b, u, bound - 1);
        lemma_cnt_src_congr(a.preds_of(bound - 1), b.preds_of(bound - 1), u, a.preds_of(bound - 1).len() as int);
    }
}

/// Source-wise equal rows count the same.
pub proof fn lemma_cnt_src_congr(p1: Seq<Transition>, p2: Seq<Transition>, u: int, j: int)
    requires
        p2.len() == p1.len(),
        forall|i: int| 0 <= i < p1.len() ==> (#[trigger] p2[i]).source == p1[i].source,
        j <= p1.len(),
    ensures
        cnt_src(p2, u, j) == cnt_src(p1, u, j),
    decreases j,
{
    if j > 0 {
        lemma_cnt_src_congr(p1, p2, u, j - 1);
    }
}

/// The structural graph facts carry over to any game with the same state
/// count, successor counts, predecessor rows (source-wise) and bad list.
pub proof fn lemma_graph_ok_preserved(a: &Game, b: &Game)
    requires
        graph_ok(a),
        b.states@.len() == a.states@.len(),
        b.bad_states@ == a.bad_states@,
        forall|s: int|
            0 <= s < a.states@.len() ==> (#[trigger] b.states@[s]).successor_count
                == a.states@[s].successor_count,
        forall|t: int|
            0 <= t < a.states@.len() ==> (#[trigger] b.preds_of(t)).len() == a.preds_of(t).len(),
        forall|t: int, j: int|
            0 <= t < a.states@.len() && 0 <= j < a.preds_of(t).len() ==> (#[trigger] b.preds_of(
                t,
            )[j]).source == a.preds_of(t)[j].source,
    ensures
        graph_ok(b),
{
    assert forall|u: int| 0 <= u < b.states@.len() implies (
    #[trigger] b.states@[u]).successor_count == edges_from_upto(b, u, b.states@.len() as int) by {
        lemma_edges_congr(a, b, u, a.states@.len() as int);
    }
}


/// [`lemma_graph_ok_preserved`] for games sharing the very same
/// predecessor and bad vectors.
pub proof fn lemma_graph_ok_same_vecs(a: &Game, b: &Game)
    requires
        graph_ok(a),
        b.states@.len() == a.states@.len(),
        b.state_predecessors == a.state_predecessors,
        b.bad_states == a.bad_states,
        forall|s: int|
            0 <= s < a.states@.len() ==> (#[trigger] b.states@[s]).successor_count
                == a.states@[s].successor_count,
    ensures
        graph_ok(b),
{
    assert forall|t: int|
        0 <= t < a.states@.len() implies (#[trigger] b.preds_of(t)).len() == a.preds_of(t).len() by {
        assert(b.preds_of(t) == a.preds_of(t));
    }
    assert forall|t: int, j: int|
        0 <= t < a.states@.len() && 0 <= j < a.preds_of(t).len() implies (#[trigger] b.preds_of(
        t,
    )[j]).source == a.preds_of(t)[j].source by {
        assert(b.preds_of(t) == a.preds_of(t));
    }
    lemma_graph_ok_preserved(a, b);
}

/// An entry of `u`'s outgoing edges that `u` can use: any edge for `Reach`
/// and `Safe` owners, only the marked on-path edge for `Path` owners.
pub open spec fn usable_entry(g: &Game, u: int, e: Transition) -> bool {
    e.source == u && (g.states@[u].owner == Player::Path ==> e.on_path)
}

/// Number of usable entries for `u` among the first `j` of row `p`.
pub open spec fn cnt_usable(g: &Game, p: Seq<Transition>, u: int, j: int) -> nat
    decreases j,
{
    if j <= 0 {
        0
    } else {
        cnt_usable(g, p, u, j - 1) + if usable_entry(g, u, p[j - 1]) {
            1nat
        } else {
            0nat
        }
    }
}

/// Number of usable edges from `u` into target `t`.
pub open spec fn row_usable(g: &Game, u: int, t: int) -> nat {
    cnt_usable(g, g.preds_of(t), u, g.preds_of(t).len() as int)
}

/// Usable edges from `u` whose target row was processed: one full row per
/// worklist element.
pub open spec fn fired_list(g: &Game, popped: Seq<usize>, u: int) -> nat
    decreases popped.len(),
{
    if popped.len() == 0 {
        0
    } else {
        fired_list(g, popped.drop_last(), u) + row_usable(g, u, popped.last() as int)
    }
}

/// All usable edges from `u` into targets below `bound`.
pub open spec fn total_usable_upto(g: &Game, u: int, bound: int) -> nat
    decreases bound,
{
    if bound <= 0 {
        0
    } else {
        total_usable_upto(g, u, bound - 1) + row_usable(g, u, bound - 1)
    }
}

/// Usable edges from `u` into targets below `bound` that are not in
/// `popped`.
pub open spec fn missing_upto(g: &Game, popped: Seq<usize>, u: int, bound: int) -> nat
    decreases bound,
{
    if bound <= 0 {
        0
    } else {
        missing_upto(g, popped, u, bound - 1) + if seq_has(popped, bound - 1) {
            0nat
        } else {
            row_usable(g, u, bound - 1)
        }
    }
}

/// All outgoing edges of `u` (irrespective of usability) over targets
/// below `bound`, counted through the predecessor rows.
pub open spec fn edges_from_upto(g: &Game, u: int, bound: int) -> nat
    decreases bound,
{
    if bound <= 0 {
        0
    } else {
        edges_from_upto(g, u, bound - 1) + cnt_src(
            g.preds_of(bound - 1),
            u,
            g.preds_of(bound - 1).len() as int,
        )
    }
}

/// Each state's stored successor count equals its number of outgoing edges
/// as recorded in the predecessor rows.
pub open spec fn counts_ok(g: &Game) -> bool {
    forall|u: int|
        0 <= u < g.states@.len() ==> (#[trigger] g.states@[u]).successor_count == edges_from_upto(
            g,
            u,
            g.states@.len() as int,
        )
}

/// No state is listed twice among the bad states.
pub open spec fn bad_distinct(g: &Game) -> bool {
    forall|k1: int, k2: int|
        0 <= k1 < k2 < g.bad_states@.len() ==> g.bad_states@[k1] != g.bad_states@[k2]
}

/// Every `Path`-owned non-bad state keeps a marked on-path edge to use.
pub open spec fn path_edges_ok(g: &Game) -> bool {
    forall|u: int|
        0 <= u < g.states@.len() && (#[trigger] g.states@[u]).owner == Player::Path && !seq_has(
            g.bad_states@,
            u,
        ) ==> exists|t: int, j: int|
            0 <= t < g.states@.len() && 0 <= j < g.preds_of(t).len() && usable_entry(
                g,
                u,
                #[trigger] g.preds_of(t)[j],
            )
}

/// The structural facts the attractor relies on, beyond [`Game::wf`].
pub open spec fn graph_ok(g: &Game) -> bool {
    counts_ok(g) && bad_distinct(g)
}


/// Truncated subtraction.
pub open spec fn clampsub(a: nat, b: nat) -> nat {
    if b >= a {
        0
    } else {
        (a - b) as nat
    }
}

/// The worklist's starting counter: zero for bad states, the full
/// successor count for `Safe` owners, one otherwise.
pub open spec fn init_count(g: &Game, u: int) -> nat {
    if seq_has(g.bad_states@, u) {
        0
    } else if g.states@[u].owner == Player::Safe {
        g.states@[u].successor_count as nat
    } else {
        1
    }
}


/// The worklist discipline: a state is queued or processed exactly when
/// its counter is exhausted and it could ever be pushed (bad states are
/// seeded; others need a positive starting counter).
pub open spec fn member_inv(
    g: &Game,
    cur: Seq<State>,
    open_s: Seq<usize>,
    popped_s: Seq<usize>,
) -> bool {
    forall|u: int|
        0 <= u < cur.len() ==> ((seq_has(open_s, u) || seq_has(popped_s, u)) <==> ((
        #[trigger] cur[u]).attractor_count == 0 && (seq_has(g.bad_states@, u) || init_count(g, u)
            >= 1)))
}

pub proof fn lemma_member_inv_lookup(
    g: &Game,
    cur: Seq<State>,
    open_s: Seq<usize>,
    popped_s: Seq<usize>,
    u: int,
)
    requires
        member_inv(g, cur, open_s, popped_s),
        0 <= u < cur.len(),
    ensures
        (seq_has(open_s, u) || seq_has(popped_s, u)) <==> (cur[u].attractor_count == 0 && (seq_has(
            g.bad_states@,
            u,
        ) || init_count(g, u) >= 1)),
{
    assert(cur[u] == cur[u]);
}

/// Moving one element from the worklist to the processed list keeps the
/// discipline.
pub proof fn lemma_member_inv_shift(
    g: &Game,
    cur: Seq<State>,
    open_old_s: Seq<usize>,
    open_new_s: Seq<usize>,
    popped_old_s: Seq<usize>,
    popped_new_s: Seq<usize>,
    moved: usize,
)
    requires
        member_inv(g, cur, open_old_s, popped_old_s),
        open_old_s =~= open_new_s.push(moved),
        popped_new_s =~= popped_old_s.push(moved),
    ensures
        member_inv(g, cur, open_new_s, popped_new_s),
{
    assert forall|u: int|
        0 <= u < cur.len() implies ((seq_has(open_new_s, u) || seq_has(popped_new_s, u)) <==> ((
    #[trigger] cur[u]).attractor_count == 0 && (seq_has(g.bad_states@, u) || init_count(g, u)
        >= 1))) by {
        lemma_member_inv_lookup(g, cur, open_old_s, popped_old_s, u);
        lemma_seq_has_push(open_new_s, moved, u);
        lemma_seq_has_push(popped_old_s, moved, u);
    }
}

/// A counter change that neither reaches nor leaves zero keeps the
/// discipline.
pub proof fn lemma_member_inv_update(
    g: &Game,
    cur_old: Seq<State>,
    cur_new: Seq<State>,
    open_s: Seq<usize>,
    popped_s: Seq<usize>,
    w: int,
)
    requires
        member_inv(g, cur_old, open_s, popped_s),
        cur_new.len() == cur_old.len(),
        0 <= w < cur_old.len(),
        forall|v: int| 0 <= v < cur_old.len() && v != w ==> cur_new[v] == cur_old[v],
        (cur_new[w].attractor_count == 0) <==> (cur_old[w].attractor_count == 0),
    ensures
        member_inv(g, cur_new, open_s, popped_s),
{
    assert forall|u: int|
        0 <= u < cur_new.len() implies ((seq_has(open_s, u) || seq_has(popped_s, u)) <==> ((
    #[trigger] cur_new[u]).attractor_count == 0 && (seq_has(g.bad_states@, u) || init_count(g, u)
        >= 1))) by {
        lemma_member_inv_lookup(g, cur_old, open_s, popped_s, u);
    }
}

/// A counter that just reached zero joins the worklist; the state was not
/// listed before.
pub proof fn lemma_member_inv_attach(
    g: &Game,
    cur_old: Seq<State>,
    cur_new: Seq<State>,
    open_s: Seq<usize>,
    popped_s: Seq<usize>,
    wu: usize,
)
    requires
        member_inv(g, cur_old, open_s, popped_s),
        cur_new.len() == cur_old.len(),
        0 <= (wu as int) < cur_old.len(),
        forall|v: int| 0 <= v < cur_old.len() && v != wu as int ==> cur_new[v] == cur_old[v],
        cur_old[wu as int].attractor_count != 0,
        cur_new[wu as int].attractor_count == 0,
        seq_has(g.bad_states@, wu as int) || init_count(g, wu as int) >= 1,
    ensures
        member_inv(g, cur_new, open_s.push(wu), popped_s),
        !seq_has(open_s, wu as int),
        !seq_has(popped_s, wu as int),
{
    lemma_member_inv_lookup(g, cur_old, open_s, popped_s, wu as int);
    assert forall|u: int|
        0 <= u < cur_new.len() implies ((seq_has(open_s.push(wu), u) || seq_has(popped_s, u)) <==> ((
    #[trigger] cur_new[u]).attractor_count == 0 && (seq_has(g.bad_states@, u) || init_count(g, u)
        >= 1))) by {
        lemma_member_inv_lookup(g, cur_old, open_s, popped_s, u);
        lemma_seq_has_push(open_s, wu, u);
    }
}

/// An unprocessed target's whole row is part of the missing count.
pub proof fn lemma_missing_bounds_row(g: &Game, popped: Seq<usize>, u: int, t2: int, bound: int)
    requires
        0 <= t2 < bound,
        !seq_has(popped, t2),
    ensures
        missing_upto(g, popped, u, bound) >= row_usable(g, u, t2),
    decreases bound,
{
    if t2 < bound - 1 {
        lemma_missing_bounds_row(g, popped, u, t2, bound - 1);
    }
}

/// A state whose counter just reached zero satisfies the attractor's
/// joining condition over the states processed so far, and so joins the
/// next attractor round.
pub proof fn lemma_newly_attracted(
    g: &Game,
    popped: Seq<usize>,
    t: int,
    jj: int,
    u: int,
    lvl: nat,
)
    requires
        g.wf(),
        graph_ok(g),
        0 <= u < g.states@.len(),
        !seq_has(g.bad_states@, u),
        init_count(g, u) >= 1,
        0 <= t < g.states@.len(),
        0 <= jj < g.preds_of(t).len(),
        usable_entry(g, u, g.preds_of(t)[jj]),
        seq_has(popped, t),
        forall|i: int| 0 <= i < popped.len() ==> (#[trigger] popped[i]) < g.states@.len(),
        forall|i1: int, i2: int| 0 <= i1 < i2 < popped.len() ==> popped[i1] != popped[i2],
        forall|i: int|
            0 <= i < popped.len() ==> attr_at(g, lvl).contains((#[trigger] popped[i]) as int),
        g.states@[u].owner == Player::Safe ==> fired_list(g, popped, u) >= init_count(g, u),
    ensures
        attr_at(g, (lvl + 1) as nat).contains(u),
{
    let prev = attr_at(g, lvl);
    if g.states@[u].owner == Player::Safe {
        lemma_fired_missing_conservation(g, popped, u, g.states@.len() as int);
        lemma_total_usable_is_edges(g, u, g.states@.len() as int);
        assert(total_usable_upto(g, u, g.states@.len() as int) == g.states@[u].successor_count);
        assert(missing_upto(g, popped, u, g.states@.len() as int) == 0);
        assert forall|t2: int, j2: int|
            0 <= t2 < g.states@.len() && 0 <= j2 < g.preds_of(t2).len() && (#[trigger] g.preds_of(
                t2,
            )[j2]).source == u implies prev.contains(t2) by {
            assert(usable_entry(g, u, g.preds_of(t2)[j2]));
            lemma_entry_to_cnt_usable(g, g.preds_of(t2), u, j2, g.preds_of(t2).len() as int);
            assert(row_usable(g, u, t2) > 0);
            if !seq_has(popped, t2) {
                lemma_missing_bounds_row(g, popped, u, t2, g.states@.len() as int);
            }
            assert(seq_has(popped, t2));
            let w = choose|w: int| 0 <= w < popped.len() && popped[w] == t2;
            assert(attr_at(g, lvl).contains(popped[w] as int));
        }
        assert(attr_cond(g, prev, u));
    } else {
        let w = choose|w: int| 0 <= w < popped.len() && popped[w] == t;
        assert(attr_at(g, lvl).contains(popped[w] as int));
        assert(prev.contains(t));
        assert(attr_cond(g, prev, u));
    }
    assert(attr_at(g, (lvl + 1) as nat) == attr_at(g, lvl).union(
        Set::new(|u2: int| attr_cond(g, attr_at(g, lvl), u2)),
    ));
    assert(Set::new(|u2: int| attr_cond(g, attr_at(g, lvl), u2)).contains(u));
}

/// The joining condition of the counting attractor: a `Reach` or `Path`
/// state joins once one usable edge leads into the set, a `Safe` state
/// once every outgoing edge does (and it has at least one).
pub open spec fn attr_cond(g: &Game, sset: Set<int>, u: int) -> bool {
    &&& 0 <= u < g.states@.len()
    &&& if g.states@[u].owner == Player::Safe {
        g.states@[u].successor_count >= 1 && (forall|t: int, j: int|
            0 <= t < g.states@.len() && 0 <= j < g.preds_of(t).len() && (#[trigger] g.preds_of(
                t,
            )[j]).source == u ==> sset.contains(t))
    } else {
        exists|t: int, j: int|
            0 <= t < g.states@.len() && 0 <= j < g.preds_of(t).len() && usable_entry(
                g,
                u,
                #[trigger] g.preds_of(t)[j],
            ) && sset.contains(t)
    }
}

/// The attractor of the bad set after `k` rounds.
pub open spec fn attr_at(g: &Game, k: nat) -> Set<int>
    decreases k,
{
    if k == 0 {
        Set::new(|s: int| seq_has(g.bad_states@, s))
    } else {
        attr_at(g, (k - 1) as nat).union(
            Set::new(|u: int| attr_cond(g, attr_at(g, (k - 1) as nat), u)),
        )
    }
}

/// Whether the attractor of the bad set ever captures `u`.
pub open spec fn attracted(g: &Game, u: int) -> bool {
    exists|k: nat| attr_at(g, k).contains(u)
}

/// Who wins the game under the current owner assignment: the reachability
/// player exactly when the attractor captures a non-bad initial state.
pub open spec fn spec_winner(g: &Game) -> Player {
    if attracted(g, g.initial_state as int) && !seq_has(g.bad_states@, g.initial_state as int) {
        Player::Reach
    } else {
        Player::Safe
    }
}

/// A fresh row contributes nothing; appending a processed row adds its
/// usable-edge count.
pub proof fn lemma_fired_push(g: &Game, popped: Seq<usize>, t: usize, u: int)
    ensures
        fired_list(g, popped.push(t), u) == fired_list(g, popped, u) + row_usable(g, u, t as int),
{
    assert(popped.push(t).drop_last() =~= popped);
    assert(popped.push(t).last() == t);
}

/// With nothing processed, everything below the bound is missing.
pub proof fn lemma_missing_empty(g: &Game, u: int, bound: int)
    ensures
        missing_upto(g, Seq::<usize>::empty(), u, bound) == total_usable_upto(g, u, bound),
    decreases bound,
{
    if bound > 0 {
        lemma_missing_empty(g, u, bound - 1);
        if seq_has(Seq::<usize>::empty(), bound - 1) {
            let w = choose|w: int|
                0 <= w < Seq::<usize>::empty().len() && Seq::<usize>::empty()[w] == bound - 1;
        }
    }
}

/// Processing a fresh target moves its row from missing to fired.
pub proof fn lemma_missing_push(g: &Game, popped: Seq<usize>, t: usize, u: int, bound: int)
    requires
        !seq_has(popped, t as int),
    ensures
        missing_upto(g, popped, u, bound) == missing_upto(g, popped.push(t), u, bound) + if t < bound {
            row_usable(g, u, t as int)
        } else {
            0nat
        },
    decreases bound,
{
    if bound > 0 {
        lemma_missing_push(g, popped, t, u, bound - 1);
        lemma_seq_has_push(popped, t, bound - 1);
    }
}

/// Conservation: every usable edge below the bound is either fired or
/// missing — as long as no row was processed twice.
pub proof fn lemma_fired_missing_conservation(g: &Game, popped: Seq<usize>, u: int, bound: int)
    requires
        forall|i1: int, i2: int| 0 <= i1 < i2 < popped.len() ==> popped[i1] != popped[i2],
        forall|i: int| 0 <= i < popped.len() ==> (#[trigger] popped[i]) < bound,
        0 <= bound,
    ensures
        fired_list(g, popped, u) + missing_upto(g, popped, u, bound) == total_usable_upto(
            g,
            u,
            bound,
        ),
    decreases popped.len(),
{
    if popped.len() == 0 {
        assert(popped =~= Seq::<usize>::empty());
        lemma_missing_empty(g, u, bound);
    } else {
        let q = popped.drop_last();
        let t = popped.last();
        assert(popped =~= q.push(t));
        assert(!seq_has(q, t as int)) by {
            if seq_has(q, t as int) {
                let w = choose|w: int| 0 <= w < q.len() && q[w] == t as int;
                assert(popped[w] == popped[popped.len() - 1]);
            }
        }
        lemma_fired_missing_conservation(g, q, u, bound);
        lemma_fired_push(g, q, t, u);
        lemma_missing_push(g, q, t, u, bound);
    }
}

/// A positive usable count names a concrete usable entry.
pub proof fn lemma_cnt_usable_to_entry(g: &Game, p: Seq<Transition>, u: int, j: int)
    requires
        cnt_usable(g, p, u, j) > 0,
        j <= p.len(),
    ensures
        exists|j2: int| 0 <= j2 < j && usable_entry(g, u, #[trigger] p[j2]),
    decreases j,
{
    if j > 0 {
        if usable_entry(g, u, p[j - 1]) {
        } else {
            lemma_cnt_usable_to_entry(g, p, u, j - 1);
        }
    }
}

/// A concrete usable entry makes the count positive.
pub proof fn lemma_entry_to_cnt_usable(g: &Game, p: Seq<Transition>, u: int, j2: int, j: int)
    requires
        0 <= j2 < j <= p.len(),
        usable_entry(g, u, p[j2]),
    ensures
        cnt_usable(g, p, u, j) > 0,
    decreases j,
{
    if j2 < j - 1 {
        lemma_entry_to_cnt_usable(g, p, u, j2, j - 1);
    }
}

/// A processed target's whole row is part of the fired count.
pub proof fn lemma_fired_from_member(g: &Game, popped: Seq<usize>, t: int, u: int)
    requires
        seq_has(popped, t),
    ensures
        fired_list(g, popped, u) >= row_usable(g, u, t),
    decreases popped.len(),
{
    if popped.len() > 0 {
        if popped.last() as int == t {
        } else {
            assert(seq_has(popped.drop_last(), t)) by {
                let w = choose|w: int| 0 <= w < popped.len() && popped[w] == t;
                assert(popped.drop_last()[w] == t);
            }
            lemma_fired_from_member(g, popped.drop_last(), t, u);
        }
    }
}

/// When every target with a usable edge was processed, nothing is missing.
pub proof fn lemma_missing_zero(g: &Game, popped: Seq<usize>, u: int, bound: int)
    requires
        0 <= bound,
        forall|t: int| 0 <= t < bound && row_usable(g, u, t) > 0 ==> seq_has(popped, t),
    ensures
        missing_upto(g, popped, u, bound) == 0,
    decreases bound,
{
    if bound > 0 {
        lemma_missing_zero(g, popped, u, bound - 1);
    }
}

/// For a state that is not `Path`-owned, every outgoing edge is usable.
pub proof fn lemma_cnt_usable_is_cnt_src(g: &Game, p: Seq<Transition>, u: int, j: int)
    requires
        g.states@[u].owner != Player::Path,
    ensures
        cnt_usable(g, p, u, j) == cnt_src(p, u, j),
    decreases j,
{
    if j > 0 {
        lemma_cnt_usable_is_cnt_src(g, p, u, j - 1);
    }
}

/// For a non-`Path` state, the usable total is the edge total.
pub proof fn lemma_total_usable_is_edges(g: &Game, u: int, bound: int)
    requires
        g.states@[u].owner != Player::Path,
        0 <= bound,
    ensures
        total_usable_upto(g, u, bound) == edges_from_upto(g, u, bound),
    decreases bound,
{
    if bound > 0 {
        lemma_total_usable_is_edges(g, u, bound - 1);
        lemma_cnt_usable_is_cnt_src(
            g,
            g.preds_of(bound - 1),
            u,
            g.preds_of(bound - 1).len() as int,
        );
    }
}

/// Usable prefix counts only grow with the prefix.
pub proof fn lemma_cnt_usable_mono(g: &Game, p: Seq<Transition>, u: int, j1: int, j2: int)
    requires
        0 <= j1 <= j2,
    ensures
        cnt_usable(g, p, u, j1) <= cnt_usable(g, p, u, j2),
    decreases j2,
{
    if j1 < j2 {
        lemma_cnt_usable_mono(g, p, u, j1, j2 - 1);
    }
}

/// The joining condition only grows with the set.
pub proof fn lemma_attr_cond_mono(g: &Game, s1: Set<int>, s2: Set<int>, u: int)
    requires
        s1.subset_of(s2),
        attr_cond(g, s1, u),
    ensures
        attr_cond(g, s2, u),
{
    if g.states@[u].owner == Player::Safe {
    } else {
        let (t, j) = choose|t: int, j: int|
            0 <= t < g.states@.len() && 0 <= j < g.preds_of(t).len() && usable_entry(
                g,
                u,
                #[trigger] g.preds_of(t)[j],
            ) && s1.contains(t);
        assert(s2.contains(t));
    }
}

/// Attractor rounds only grow.
pub proof fn lemma_attr_at_mono(g: &Game, k1: nat, k2: nat)
    requires
        k1 <= k2,
    ensures
        attr_at(g, k1).subset_of(attr_at(g, k2)),
    decreases k2,
{
    if k1 < k2 {
        lemma_attr_at_mono(g, k1, (k2 - 1) as nat);
    }
}

/// Any set that holds the bad states and is closed under the joining
/// condition holds the whole attractor.
pub proof fn lemma_attr_in_closed(g: &Game, c: Set<int>, k: nat)
    requires
        forall|s: int| seq_has(g.bad_states@, s) ==> c.contains(s),
        forall|u: int| attr_cond(g, c, u) ==> c.contains(u),
    ensures
        attr_at(g, k).subset_of(c),
    decreases k,
{
    if k > 0 {
        lemma_attr_in_closed(g, c, (k - 1) as nat);
        assert forall|u: int| attr_at(g, k).contains(u) implies c.contains(u) by {
            if attr_at(g, (k - 1) as nat).contains(u) {
            } else {
                lemma_attr_cond_mono(g, attr_at(g, (k - 1) as nat), c, u);
            }
        }
    }
}


/// [`usable_entry`] with the owner assignment given separately.
pub open spec fn usable_entry_o(owners: Seq<Player>, u: int, e: Transition) -> bool {
    e.source == u && (owners[u] == Player::Path ==> e.on_path)
}

/// [`attr_cond`] with the owner assignment given separately.
pub open spec fn attr_cond_o(g: &Game, owners: Seq<Player>, sset: Set<int>, u: int) -> bool {
    &&& 0 <= u < g.states@.len()
    &&& if owners[u] == Player::Safe {
        g.states@[u].successor_count >= 1 && (forall|t: int, j: int|
            0 <= t < g.states@.len() && 0 <= j < g.preds_of(t).len() && (#[trigger] g.preds_of(
                t,
            )[j]).source == u ==> sset.contains(t))
    } else {
        exists|t: int, j: int|
            0 <= t < g.states@.len() && 0 <= j < g.preds_of(t).len() && usable_entry_o(
                owners,
                u,
                #[trigger] g.preds_of(t)[j],
            ) && sset.contains(t)
    }
}

/// [`attr_at`] with the owner assignment given separately.
pub open spec fn attr_at_o(g: &Game, owners: Seq<Player>, k: nat) -> Set<int>
    decreases k,
{
    if k == 0 {
        Set::new(|s: int| seq_has(g.bad_states@, s))
    } else {
        attr_at_o(g, owners, (k - 1) as nat).union(
            Set::new(|u: int| attr_cond_o(g, owners, attr_at_o(g, owners, (k - 1) as nat), u)),
        )
    }
}

/// [`spec_winner`] with the owner assignment given separately.
pub open spec fn winner_o(g: &Game, owners: Seq<Player>) -> Player {
    if (exists|k: nat| attr_at_o(g, owners, k).contains(g.initial_state as int)) && !seq_has(
        g.bad_states@,
        g.initial_state as int,
    ) {
        Player::Reach
    } else {
        Player::Safe
    }
}

/// The owner each state has once the coalition mask is installed: `Safe`
/// wherever the mask selects at least one group holding the state.
pub open spec fn masked_owners(groups: &StateGroups, g: &Game, mask: u64) -> Seq<Player> {
    Seq::new(
        g.states@.len(),
        |s: int|
            if groups.mask_count(mask, s) > 0 {
                Player::Safe
            } else {
                g.states@[s].owner
            },
    )
}

/// Whether the safety player wins the game once the coalition mask is
/// installed: the semantic meaning of a winning coalition.
pub open spec fn safe_wins(groups: &StateGroups, g: &Game, mask: u64) -> bool {
    winner_o(g, masked_owners(groups, g, mask)) == Player::Safe
}

/// The rounds of the two attractor presentations coincide whenever the
/// second game carries exactly the separated owner assignment and shares
/// the structure the attractor reads.
pub proof fn lemma_attr_bridge(g0: &Game, owners: Seq<Player>, g1: &Game, k: nat)
    requires
        g1.states@.len() == g0.states@.len(),
        owners.len() == g0.states@.len(),
        g1.state_predecessors == g0.state_predecessors,
        g1.bad_states == g0.bad_states,
        g1.initial_state == g0.initial_state,
        forall|s: int|
            0 <= s < g0.states@.len() ==> (#[trigger] g1.states@[s]).successor_count
                == g0.states@[s].successor_count,
        forall|s: int| 0 <= s < g0.states@.len() ==> (#[trigger] g1.states@[s]).owner == owners[s],
    ensures
        attr_at(g1, k) =~= attr_at_o(g0, owners, k),
    decreases k,
{
    if k == 0 {
        assert forall|s: int| #[trigger] attr_at(g1, 0).contains(s) <==> attr_at_o(
            g0,
            owners,
            0,
        ).contains(s) by {}
    } else {
        lemma_attr_bridge(g0, owners, g1, (k - 1) as nat);
        let prev1 = attr_at(g1, (k - 1) as nat);
        let prev0 = attr_at_o(g0, owners, (k - 1) as nat);
        assert forall|u: int| #[trigger] attr_cond(g1, prev1, u) <==> attr_cond_o(
            g0,
            owners,
            prev0,
            u,
        ) by {
            if 0 <= u < g0.states@.len() {
                assert(g1.states@[u].owner == owners[u]);
                if owners[u] == Player::Safe {
                    assert forall|t: int, j: int|
                        0 <= t < g0.states@.len() && 0 <= j < g0.preds_of(t).len() implies (
                    #[trigger] g0.preds_of(t)[j]) == g1.preds_of(t)[j] by {
                        assert(g1.preds_of(t) == g0.preds_of(t));
                    }
                    if attr_cond(g1, prev1, u) {
                        assert forall|t: int, j: int|
                            0 <= t < g0.states@.len() && 0 <= j < g0.preds_of(t).len() && (
                        #[trigger] g0.preds_of(t)[j]).source == u implies prev0.contains(t) by {
                            assert(g1.preds_of(t)[j].source == u);
                            assert(prev1.contains(t));
                        }
                    }
                    if attr_cond_o(g0, owners, prev0, u) {
                        assert forall|t: int, j: int|
                            0 <= t < g1.states@.len() && 0 <= j < g1.preds_of(t).len() && (
                        #[trigger] g1.preds_of(t)[j]).source == u implies prev1.contains(t) by {
                            assert(g1.preds_of(t) == g0.preds_of(t));
                            assert(g0.preds_of(t)[j].source == u);
                            assert(prev0.contains(t));
                        }
                    }
                } else {
                    if attr_cond(g1, prev1, u) {
                        let (t, j) = choose|t: int, j: int|
                            0 <= t < g1.states@.len() && 0 <= j < g1.preds_of(t).len()
                                && usable_entry(g1, u, #[trigger] g1.preds_of(t)[j])
                                && prev1.contains(t);
                        assert(g1.preds_of(t) == g0.preds_of(t));
                        assert(usable_entry_o(owners, u, g0.preds_of(t)[j]));
                        assert(prev0.contains(t));
                        assert(attr_cond_o(g0, owners, prev0, u));
                    }
                    if attr_cond_o(g0, owners, prev0, u) {
                        let (t, j) = choose|t: int, j: int|
                            0 <= t < g0.states@.len() && 0 <= j < g0.preds_of(t).len()
                                && usable_entry_o(owners, u, #[trigger] g0.preds_of(t)[j])
                                && prev0.contains(t);
                        assert(g1.preds_of(t) == g0.preds_of(t));
                        assert(usable_entry(g1, u, g1.preds_of(t)[j]));
                        assert(prev1.contains(t));
                        assert(attr_cond(g1, prev1, u));
                    }
                }
            }
        }
        assert forall|s: int| #[trigger] attr_at(g1, k).contains(s) <==> attr_at_o(
            g0,
            owners,
            k,
        ).contains(s) by {}
    }
}

/// The winner of a game with a coalition mask installed is the separated
/// masked-owners winner of the game it was installed on.
pub proof fn lemma_winner_matches_masked(groups: &StateGroups, g0: &Game, g1: &Game, mask: u64)
    requires
        groups.mask_set_applied(mask, *g0, *g1),
    ensures
        spec_winner(g1) == winner_o(g0, masked_owners(groups, g0, mask)),
{
    assert forall|s: int| 0 <= s < g0.states@.len() implies (#[trigger] g1.states@[s]).owner == (
    if groups.mask_count(mask, s) > 0 {
        Player::Safe
    } else {
        g0.states@[s].owner
    }) && g1.states@[s].successor_count == g0.states@[s].successor_count by {}
    lemma_winner_matches_owners(groups, g0, g1, mask);
}

/// As [`lemma_winner_matches_masked`], but asking only for the structure
/// the attractor reads: a game whose owners carry the mask matches the
/// separated masked-owners winner even when its attractor scratch
/// counters are dirty.
pub proof fn lemma_winner_matches_owners(groups: &StateGroups, g0: &Game, g1: &Game, mask: u64)
    requires
        g1.states@.len() == g0.states@.len(),
        g1.state_predecessors == g0.state_predecessors,
        g1.bad_states == g0.bad_states,
        g1.initial_state == g0.initial_state,
        forall|s: int|
            0 <= s < g0.states@.len() ==> (#[trigger] g1.states@[s]).owner == (
            if groups.mask_count(mask, s) > 0 {
                Player::Safe
            } else {
                g0.states@[s].owner
            }) && g1.states@[s].successor_count == g0.states@[s].successor_count,
    ensures
        spec_winner(g1) == winner_o(g0, masked_owners(groups, g0, mask)),
{
    let mow = masked_owners(groups, g0, mask);
    assert forall|s: int| 0 <= s < g0.states@.len() implies (#[trigger] g1.states@[s]).owner
        == mow[s] by {}
    assert forall|k: nat| #[trigger] attr_at(g1, k) =~= attr_at_o(g0, mow, k) by {
        lemma_attr_bridge(g0, mow, g1, k);
    }
    assert((exists|k: nat| attr_at(g1, k).contains(g1.initial_state as int)) <==> (exists|k: nat|
        attr_at_o(g0, mow, k).contains(g0.initial_state as int))) by {
        if exists|k: nat| attr_at(g1, k).contains(g1.initial_state as int) {
            let k = choose|k: nat| attr_at(g1, k).contains(g1.initial_state as int);
            assert(attr_at_o(g0, mow, k).contains(g0.initial_state as int));
        }
        if exists|k: nat| attr_at_o(g0, mow, k).contains(g0.initial_state as int) {
            let k = choose|k: nat| attr_at_o(g0, mow, k).contains(g0.initial_state as int);
            assert(attr_at(g1, k).contains(g1.initial_state as int));
        }
    }
}

/// The masked winner reads only the structure the attractor reads, so it
/// carries over between games that agree on it.
pub proof fn lemma_safe_wins_congr(groups: &StateGroups, a: &Game, b: &Game, mask: u64)
    requires
        b.states@.len() == a.states@.len(),
        b.state_predecessors@.len() == a.state_predecessors@.len(),
        forall|t: int|
            0 <= t < a.states@.len() ==> #[trigger] b.preds_of(t) == a.preds_of(t),
        b.bad_states@ == a.bad_states@,
        b.initial_state == a.initial_state,
        forall|s: int|
            0 <= s < a.states@.len() ==> (#[trigger] b.states@[s]).successor_count
                == a.states@[s].successor_count && b.states@[s].owner == a.states@[s].owner,
    ensures
        safe_wins(groups, a, mask) == safe_wins(groups, b, mask),
{
    let mowa = masked_owners(groups, a, mask);
    let mowb = masked_owners(groups, b, mask);
    assert(mowa =~= mowb);
    assert forall|k: nat| #[trigger] attr_at_o(a, mowa, k) =~= attr_at_o(b, mowb, k) by {
        lemma_attr_o_congr(a, b, mowa, k);
    }
    assert((exists|k: nat| attr_at_o(a, mowa, k).contains(a.initial_state as int)) <==> (exists|
        k: nat,
    | attr_at_o(b, mowb, k).contains(b.initial_state as int))) by {
        if exists|k: nat| attr_at_o(a, mowa, k).contains(a.initial_state as int) {
            let k = choose|k: nat| attr_at_o(a, mowa, k).contains(a.initial_state as int);
            assert(attr_at_o(b, mowb, k).contains(b.initial_state as int));
        }
        if exists|k: nat| attr_at_o(b, mowb, k).contains(b.initial_state as int) {
            let k = choose|k: nat| attr_at_o(b, mowb, k).contains(b.initial_state as int);
            assert(attr_at_o(a, mowa, k).contains(a.initial_state as int));
        }
    }
}

/// The separated attractor is a function of the structure it reads.
pub proof fn lemma_attr_o_congr(a: &Game, b: &Game, owners: Seq<Player>, k: nat)
    requires
        b.states@.len() == a.states@.len(),
        b.state_predecessors@.len() == a.state_predecessors@.len(),
        forall|t: int|
            0 <= t < a.states@.len() ==> #[trigger] b.preds_of(t) == a.preds_of(t),
        b.bad_states@ == a.bad_states@,
        forall|s: int|
            0 <= s < a.states@.len() ==> (#[trigger] b.states@[s]).successor_count
                == a.states@[s].successor_count,
    ensures
        attr_at_o(a, owners, k) =~= attr_at_o(b, owners, k),
    decreases k,
{
    if k == 0 {
        assert forall|s: int| #[trigger] attr_at_o(a, owners, 0).contains(s) <==> attr_at_o(
            b,
            owners,
            0,
        ).contains(s) by {}
    } else {
        lemma_attr_o_congr(a, b, owners, (k - 1) as nat);
        let preva = attr_at_o(a, owners, (k - 1) as nat);
        let prevb = attr_at_o(b, owners, (k - 1) as nat);
        assert forall|u: int| #[trigger] attr_cond_o(a, owners, preva, u) <==> attr_cond_o(
            b,
            owners,
            prevb,
            u,
        ) by {
            if 0 <= u < a.states@.len() {
                if owners[u] == Player::Safe {
                    if attr_cond_o(a, owners, preva, u) {
                        assert forall|t: int, j: int|
                            0 <= t < b.states@.len() && 0 <= j < b.preds_of(t).len() && (
                        #[trigger] b.preds_of(t)[j]).source == u implies prevb.contains(t) by {
                            assert(b.preds_of(t) == a.preds_of(t));
                            assert(preva.contains(t));
                        }
                    }
                    if attr_cond_o(b, owners, prevb, u) {
                        assert forall|t: int, j: int|
                            0 <= t < a.states@.len() && 0 <= j < a.preds_of(t).len() && (
                        #[trigger] a.preds_of(t)[j]).source == u implies preva.contains(t) by {
                            assert(b.preds_of(t) == a.preds_of(t));
                            assert(prevb.contains(t));
                        }
                    }
                } else {
                    if attr_cond_o(a, owners, preva, u) {
                        let (t, j) = choose|t: int, j: int|
                            0 <= t < a.states@.len() && 0 <= j < a.preds_of(t).len()
                                && usable_entry_o(owners, u, #[trigger] a.preds_of(t)[j])
                                && preva.contains(t);
                        assert(b.preds_of(t) == a.preds_of(t));
                        assert(attr_cond_o(b, owners, prevb, u));
                    }
                    if attr_cond_o(b, owners, prevb, u) {
                        let (t, j) = choose|t: int, j: int|
                            0 <= t < b.states@.len() && 0 <= j < b.preds_of(t).len()
                                && usable_entry_o(owners, u, #[trigger] b.preds_of(t)[j])
                                && prevb.contains(t);
                        assert(b.preds_of(t) == a.preds_of(t));
                        assert(attr_cond_o(a, owners, preva, u));
                    }
                }
            }
        }
        assert forall|s: int| #[trigger] attr_at_o(a, owners, k).contains(s) <==> attr_at_o(
            b,
            owners,
            k,
        ).contains(s) by {}
    }
}


/// Equivalent groupings install identical owner assignments, so the masked
/// winner agrees.
pub proof fn lemma_safe_wins_groups_equiv(
    ga: &StateGroups,
    gb: &StateGroups,
    g: &Game,
    mask: u64,
)
    requires
        crate::groups::groups_equiv(ga, gb),
    ensures
        safe_wins(ga, g, mask) == safe_wins(gb, g, mask),
{
    assert forall|s: int| 0 <= s < g.states@.len() implies #[trigger] ga.mask_count(mask, s)
        == gb.mask_count(mask, s) by {
        crate::groups::lemma_groups_equiv_mask_count(ga, gb, mask, s, ga.spec_len());
    }
    assert(masked_owners(ga, g, mask) =~= masked_owners(gb, g, mask));
}

impl Game {
    pub open spec fn n(&self) -> int {
        self.states@.len() as int
    }

    pub open spec fn preds_of(&self, t: int) -> Seq<Transition> {
        self.state_predecessors@[t].predecessors@
    }

    /// Structural well-formedness: matching lengths and in-range indices.
    pub open spec fn wf(&self) -> bool {
        &&& self.state_predecessors@.len() == self.states@.len()
        &&& self.initial_state < self.states@.len()
        &&& forall|t: int, j: int|
            0 <= t < self.n() && 0 <= j < self.preds_of(t).len() ==> (#[trigger] self.preds_of(
                t,
            )[j]).source < self.states@.len()
        &&& forall|i: int|
            0 <= i < self.bad_states@.len() ==> (#[trigger] self.bad_states@[i])
                < self.states@.len()
    }

    /// The reference-counting discipline: a positive `change_count` forces
    /// `Safe`, and a zero count restores the default owner.
    pub open spec fn coalition_inv(&self) -> bool {
        forall|s: int|
            0 <= s < self.states@.len() ==> {
                let st = #[trigger] self.states@[s];
                (st.change_count > 0 ==> st.owner == Player::Safe) && (st.change_count == 0
                    ==> st.owner == st.default_owner)
            }
    }

    /// Equality of everything the winner depends on and the coalition state;
    /// only `attractor_count` (scratch space of the attractor) may differ.
    pub open spec fn same_but_attractor(&self, other: &Game) -> bool {
        &&& self.initial_state == other.initial_state
        &&& self.state_predecessors == other.state_predecessors
        &&& self.bad_states == other.bad_states
        &&& self.labels == other.labels
        &&& self.states@.len() == other.states@.len()
        &&& forall|s: int|
            0 <= s < self.states@.len() ==> {
                let a = #[trigger] self.states@[s];
                let b = other.states@[s];
                a.successor_count == b.successor_count && a.owner == b.owner && a.default_owner
                    == b.default_owner && a.change_count == b.change_count
            }
    }

    /// Everything except the per-state `owner`/`change_count` pair is equal.
    pub open spec fn same_but_coalition(&self, other: &Game) -> bool {
        &&& self.initial_state == other.initial_state
        &&& self.state_predecessors == other.state_predecessors
        &&& self.bad_states == other.bad_states
        &&& self.labels == other.labels
        &&& self.states@.len() == other.states@.len()
        &&& forall|s: int|
            0 <= s < self.states@.len() ==> {
                let a = #[trigger] self.states@[s];
                let b = other.states@[s];
                a.successor_count == b.successor_count && a.default_owner == b.default_owner
                    && a.attractor_count == b.attractor_count
            }
    }


    /// Builds the game from a transition system: one game state per system
    /// state (owned by `Reach` by default), predecessor lists mirroring the
    /// transitions, the bad set, and one coalition group per label (plus a
    /// synthetic group for unlabelled states when any exist).
    pub fn from_transition_system(ts: &TransitionSystem) -> (g: Game)
        requires
            suitable_game_input(ts),
        ensures
            g.wf(),
            g.coalition_inv(),
            graph_ok(&g),
            g.states@.len() == ts.states@.len(),
            g.initial_state == ts.initial_state,
            forall|s: int|
                0 <= s < g.states@.len() ==> (#[trigger] g.states@[s]) == (State {
                    successor_count: ts.states@[s].outgoing_transitions@.len() as usize,
                    owner: Player::Reach,
                    default_owner: Player::Reach,
                    attractor_count: 0,
                    change_count: 0,
                }),
            forall|s: int|
                0 <= s < g.states@.len() ==> (seq_has(g.bad_states@, s) <==> ts.states@[s].is_bad),
            forall|k1: int, k2: int|
                0 <= k1 < k2 < g.bad_states@.len() ==> g.bad_states@[k1] < g.bad_states@[k2],
            forall|t: int, j: int|
                0 <= t < g.n() && 0 <= j < g.preds_of(t).len() ==> (#[trigger] g.preds_of(
                    t,
                )[j]).on_path == false,
            forall|u: int, t: int|
                0 <= u < g.n() && 0 <= t < g.n() ==> #[trigger] cnt_src(
                    g.preds_of(t),
                    u,
                    g.preds_of(t).len() as int,
                ) == cnt_dst(
                    ts.states@[u].outgoing_transitions@,
                    t,
                    ts.states@[u].outgoing_transitions@.len() as int,
                ),
            g.labels@.len() == ts.label_names@.len() + (if exists|s: int|
                0 <= s < ts.states@.len() && (#[trigger] ts.states@[s]).labels@.len() == 0 {
                1int
            } else {
                0int
            }),
            forall|k: int|
                0 <= k < ts.label_names@.len() ==> (#[trigger] g.labels@[k]).name@
                    == ts.label_names@[k].1@,
            forall|k: int, s: int|
                0 <= k < ts.label_names@.len() && 0 <= s < g.n() ==> (#[trigger] seq_has(
                    g.labels@[k].states@,
                    s,
                ) <==> seq_has(ts.states@[s].labels@, ts.label_names@[k].0 as int)),
            (exists|s: int|
                0 <= s < ts.states@.len() && (#[trigger] ts.states@[s]).labels@.len() == 0)
                ==> (g.labels@[ts.label_names@.len() as int].name@ == "unlabelled"@ && forall|
                s: int,
            |
                0 <= s < g.n() ==> (seq_has(
                    g.labels@[ts.label_names@.len() as int].states@,
                    s,
                ) <==> ts.states@[s].labels@.len() == 0)),
    {
        let n = ts.states.len();
        let ln = ts.label_names.len();

        let mut labels: Vec<Label> = Vec::new();
        let mut k: usize = 0;
        while k < ln
            invariant
                k <= ln,
                ln == ts.label_names@.len(),
                labels@.len() == k,
                forall|kk: int|
                    0 <= kk < k ==> (#[trigger] labels@[kk]).name@ == ts.label_names@[kk].1@
                        && labels@[kk].states@.len() == 0,
            decreases ln - k,
        {
            labels.push(Label::new(ts.label_names[k].1.clone()));
            k = k + 1;
        }
        let mut unlabelled = Label::new(String::from_str("unlabelled"));

        let mut states: Vec<State> = Vec::new();
        let mut state_predecessors: Vec<StatePredecessors> = Vec::new();
        let mut bad_states: Vec<usize> = Vec::new();

        let mut i: usize = 0;
        while i < n
            invariant
                i <= n,
                n == ts.states@.len(),
                ln == ts.label_names@.len(),
                suitable_game_input(ts),
                states@.len() == i,
                state_predecessors@.len() == i,
                forall|s: int|
                    0 <= s < i ==> (#[trigger] states@[s]) == (State {
                        successor_count: 0,
                        owner: Player::Reach,
                        default_owner: Player::Reach,
                        attractor_count: 0,
                        change_count: 0,
                    }),
                forall|s: int|
                    0 <= s < i ==> (#[trigger] state_predecessors@[s]).predecessors@.len() == 0,
                forall|s: int| (seq_has(bad_states@, s) <==> 0 <= s < i && ts.states@[s].is_bad),
                forall|k1: int, k2: int|
                    0 <= k1 < k2 < bad_states@.len() ==> bad_states@[k1] < bad_states@[k2],
                forall|kk: int| 0 <= kk < bad_states@.len() ==> (#[trigger] bad_states@[kk]) < i,
                labels@.len() == ln,
                forall|kk: int|
                    0 <= kk < ln ==> (#[trigger] labels@[kk]).name@ == ts.label_names@[kk].1@,
                forall|kk: int, s: int|
                    0 <= kk < ln ==> (#[trigger] seq_has(labels@[kk].states@, s) <==> 0 <= s < i
                        && seq_has(ts.states@[s].labels@, ts.label_names@[kk].0 as int)),
                unlabelled.name@ == "unlabelled"@,
                forall|s: int|
                    seq_has(unlabelled.states@, s) <==> (0 <= s < i && ts.states@[s].labels@.len()
                        == 0),
            decreases n - i,
        {
            states.push(State::new(Player::Reach));
            state_predecessors.push(StatePredecessors { predecessors: Vec::new() });
            let ghost bad0 = bad_states@;
            if ts.states[i].is_bad {
                bad_states.push(i);
            }
            proof {
                assert forall|s: int| (seq_has(bad_states@, s) <==> 0 <= s < i + 1
                    && ts.states@[s].is_bad) by {
                    if ts.states@[i as int].is_bad {
                        lemma_seq_has_push(bad0, i, s);
                    }
                }
            }
            let lab_count = ts.states[i].labels.len();
            let mut j: usize = 0;
            while j < lab_count
                invariant
                    j <= lab_count,
                    0 <= i < n,
                    n == ts.states@.len(),
                    ln == ts.label_names@.len(),
                    suitable_game_input(ts),
                    lab_count == ts.states@[i as int].labels@.len(),
                    labels@.len() == ln,
                    forall|kk: int|
                        0 <= kk < ln ==> (#[trigger] labels@[kk]).name@ == ts.label_names@[kk].1@,
                    forall|kk: int, s: int|
                        0 <= kk < ln ==> (#[trigger] seq_has(labels@[kk].states@, s) <==> (0 <= s
                            < i && seq_has(ts.states@[s].labels@, ts.label_names@[kk].0 as int)) || (
                        s == i && seq_has_upto(
                            ts.states@[i as int].labels@,
                            ts.label_names@[kk].0 as int,
                            j as int,
                        ))),
                decreases lab_count - j,
            {
                let l = ts.states[i].labels[j];
                let kpos: usize = match find_label_position(&ts.label_names, l) {
                    Some(kp) => kp,
                    None => {
                        proof {
                            assert(exists|k: int|
                                0 <= k < ts.label_names@.len() && (#[trigger] ts.label_names@[k]).0
                                    == ts.states@[i as int].labels@[j as int]);
                            assert(false);
                        }
                        0
                    },
                };
                let ghost labels0 = labels@;
                labels[kpos].states.push(i);
                proof {
                    assert forall|kk: int, s: int|
                        0 <= kk < ln implies (#[trigger] seq_has(labels@[kk].states@, s) <==> (0
                            <= s < i && seq_has(ts.states@[s].labels@, ts.label_names@[kk].0 as int))
                            || (s == i && seq_has_upto(
                            ts.states@[i as int].labels@,
                            ts.label_names@[kk].0 as int,
                            j + 1,
                        ))) by {
                        lemma_seq_has_upto_step(
                            ts.states@[i as int].labels@,
                            ts.label_names@[kk].0 as int,
                            j as int,
                        );
                        if kk == kpos {
                            lemma_seq_has_push(labels0[kk].states@, i, s);
                        } else {
                            assert(labels@[kk] == labels0[kk]);
                            assert(ts.label_names@[kk].0 != ts.label_names@[kpos as int].0);
                        }
                    }
                }
                j = j + 1;
            }
            proof {
                assert forall|kk: int, s: int|
                    0 <= kk < ln implies (#[trigger] seq_has(labels@[kk].states@, s) <==> (0 <= s
                        < i + 1 && seq_has(ts.states@[s].labels@, ts.label_names@[kk].0 as int)))
                    by {
                    lemma_seq_has_full(ts.states@[i as int].labels@, ts.label_names@[kk].0 as int);
                }
            }
            let ghost unl0 = unlabelled.states@;
            if lab_count == 0 {
                unlabelled.states.push(i);
            }
            proof {
                assert forall|s: int| (seq_has(unlabelled.states@, s) <==> (0 <= s < i + 1
                    && ts.states@[s].labels@.len() == 0)) by {
                    if lab_count == 0 {
                        lemma_seq_has_push(unl0, i, s);
                    }
                }
            }
            i = i + 1;
        }

        let mut si: usize = 0;
        while si < n
            invariant
                si <= n,
                n == ts.states@.len(),
                suitable_game_input(ts),
                states@.len() == n,
                state_predecessors@.len() == n,
                forall|s: int|
                    0 <= s < n ==> (#[trigger] states@[s]) == (State {
                        successor_count: if s < si {
                            ts.states@[s].outgoing_transitions@.len() as usize
                        } else {
                            0
                        },
                        owner: Player::Reach,
                        default_owner: Player::Reach,
                        attractor_count: 0,
                        change_count: 0,
                    }),
                forall|t: int, j: int|
                    0 <= t < n && 0 <= j < state_predecessors@[t].predecessors@.len() ==> (
                    #[trigger] state_predecessors@[t].predecessors@[j]).source < n && (
                    #[trigger] state_predecessors@[t].predecessors@[j]).on_path == false,
                forall|u: int, t: int|
                    0 <= u < n && 0 <= t < n ==> #[trigger] cnt_src(
                        state_predecessors@[t].predecessors@,
                        u,
                        state_predecessors@[t].predecessors@.len() as int,
                    ) == (if u < si {
                        cnt_dst(
                            ts.states@[u].outgoing_transitions@,
                            t,
                            ts.states@[u].outgoing_transitions@.len() as int,
                        )
                    } else {
                        0nat
                    }),
            decreases n - si,
        {
            let out_count = ts.states[si].outgoing_transitions.len();
            let mut oj: usize = 0;
            while oj < out_count
                invariant
                    oj <= out_count,
                    0 <= si < n,
                    n == ts.states@.len(),
                    suitable_game_input(ts),
                    out_count == ts.states@[si as int].outgoing_transitions@.len(),
                    states@.len() == n,
                    state_predecessors@.len() == n,
                    forall|s: int|
                        0 <= s < n ==> (#[trigger] states@[s]) == (State {
                            successor_count: if s < si {
                                ts.states@[s].outgoing_transitions@.len() as usize
                            } else {
                                if s == si {
                                    oj as usize
                                } else {
                                    0
                                }
                            },
                            owner: Player::Reach,
                            default_owner: Player::Reach,
                            attractor_count: 0,
                            change_count: 0,
                        }),
                    forall|t: int, j: int|
                        0 <= t < n && 0 <= j < state_predecessors@[t].predecessors@.len() ==> (
                        #[trigger] state_predecessors@[t].predecessors@[j]).source < n && (
                        #[trigger] state_predecessors@[t].predecessors@[j]).on_path == false,
                    forall|u: int, t: int|
                        0 <= u < n && 0 <= t < n ==> #[trigger] cnt_src(
                            state_predecessors@[t].predecessors@,
                            u,
                            state_predecessors@[t].predecessors@.len() as int,
                        ) == (if u < si {
                            cnt_dst(
                                ts.states@[u].outgoing_transitions@,
                                t,
                                ts.states@[u].outgoing_transitions@.len() as int,
                            )
                        } else {
                            if u == si {
                                cnt_dst(ts.states@[u].outgoing_transitions@, t, oj as int)
                            } else {
                                0nat
                            }
                        }),
                decreases out_count - oj,
            {
                let dest = ts.states[si].outgoing_transitions[oj].destination;
                let ghost preds0 = state_predecessors@;
                state_predecessors[dest].predecessors.push(Transition::new(si));
                proof {
                    assert forall|u: int, t: int| 0 <= u < n && 0 <= t < n implies #[trigger] cnt_src(
                        state_predecessors@[t].predecessors@,
                        u,
                        state_predecessors@[t].predecessors@.len() as int,
                    ) == (if u < si {
                        cnt_dst(
                            ts.states@[u].outgoing_transitions@,
                            t,
                            ts.states@[u].outgoing_transitions@.len() as int,
                        )
                    } else {
                        if u == si {
                            cnt_dst(ts.states@[u].outgoing_transitions@, t, oj + 1)
                        } else {
                            0nat
                        }
                    }) by {
                        if t == dest as int {
                            lemma_cnt_src_push_full(
                                preds0[t].predecessors@,
                                (Transition { source: si, on_path: false }),
                                u,
                            );
                        } else {
                            assert(state_predecessors@[t] == preds0[t]);
                        }
                    }
                }
                let mut st = states[si];
                st.successor_count = st.successor_count + 1;
                states[si] = st;
                oj = oj + 1;
            }
            si = si + 1;
        }

        let has_unlabelled = unlabelled.states.len() > 0;
        proof {
            if has_unlabelled {
                let s0 = unlabelled.states@[0];
                assert(seq_has(unlabelled.states@, s0 as int));
            }
            if exists|s: int|
                0 <= s < ts.states@.len() && (#[trigger] ts.states@[s]).labels@.len() == 0 {
                let s0 = choose|s: int|
                    0 <= s < ts.states@.len() && (#[trigger] ts.states@[s]).labels@.len() == 0;
                assert(seq_has(unlabelled.states@, s0));
            }
        }
        if has_unlabelled {
            labels.push(unlabelled);
        }
        let g = Game {
            initial_state: ts.initial_state,
            states,
            state_predecessors,
            bad_states,
            labels,
        };
        proof {
            assert forall|u: int| 0 <= u < g.states@.len() implies (
            #[trigger] g.states@[u]).successor_count == edges_from_upto(
                &g,
                u,
                g.states@.len() as int,
            ) by {
                let out = ts.states@[u].outgoing_transitions@;
                assert(ts.states@[u].outgoing_transitions.len() == out.len());
                lemma_sum_dst_total(out, out.len() as int, g.states@.len() as int);
                lemma_edges_match_outgoing(&g, out, u, g.states@.len() as int);
            }
        }
        g
    }

    /// Marks the counterexample: its states become `Path`-owned (by default
    /// too), and along each consecutive pair the unique matching predecessor
    /// entry is flagged as on-path. Fails, leaving the game unchanged, when
    /// a pair matches no entry or more than one.
    pub fn mark_counterexample_path(&mut self, counterexample: &Vec<usize>) -> (r: Result<
        (),
        PathMarkError,
    >)
        requires
            old(self).wf(),
            forall|i: int|
                0 <= i < counterexample@.len() ==> (#[trigger] counterexample@[i]) < old(
                    self,
                ).states@.len(),
        ensures
            r is Ok <==> (forall|i: int|
                0 <= i < counterexample@.len() - 1 ==> cnt_src(
                    #[trigger] old(self).preds_of(counterexample@[i + 1] as int),
                    counterexample@[i] as int,
                    old(self).preds_of(counterexample@[i + 1] as int).len() as int,
                ) == 1),
            match r {
                Ok(()) => {
                    &&& final(self).wf()
                    &&& final(self).initial_state == old(self).initial_state
                    &&& final(self).bad_states == old(self).bad_states
                    &&& final(self).labels == old(self).labels
                    &&& final(self).states@.len() == old(self).states@.len()
                    &&& final(self).state_predecessors@.len() == old(
                        self,
                    ).state_predecessors@.len()
                    &&& forall|t: int|
                        0 <= t < final(self).n() ==> (#[trigger] final(self).preds_of(t)).len()
                            == old(self).preds_of(t).len()
                    &&& forall|s: int|
                        0 <= s < final(self).states@.len() ==> (#[trigger] final(self).states@[s])
                            == if seq_has(counterexample@, s) {
                            (State {
                                owner: Player::Path,
                                default_owner: Player::Path,
                                ..old(self).states@[s]
                            })
                        } else {
                            old(self).states@[s]
                        }
                    &&& forall|t: int, j: int|
                        0 <= t < final(self).n() && 0 <= j < final(self).preds_of(t).len() ==> ((
                        #[trigger] final(self).preds_of(t)[j]).source == old(self).preds_of(
                            t,
                        )[j].source && final(self).preds_of(t)[j].on_path == (old(self).preds_of(
                            t,
                        )[j].on_path || ce_edge(
                            counterexample@,
                            old(self).preds_of(t)[j].source as int,
                            t,
                        )))
                    &&& (graph_ok(old(self)) ==> graph_ok(final(self)))
                },
                Err(e) => {
                    &&& *final(self) == *old(self)
                    &&& e.position < counterexample@.len() - 1
                    &&& e.matched != 1
                    &&& cnt_src(
                        old(self).preds_of(counterexample@[e.position + 1] as int),
                        counterexample@[e.position as int] as int,
                        old(self).preds_of(counterexample@[e.position + 1] as int).len() as int,
                    ) == e.matched
                },
            },
    {
        let len = counterexample.len();

        let mut i: usize = 0;
        while i + 1 < len
            invariant
                len == counterexample@.len(),
                len > 0 ==> i < len,
                len == 0 ==> i == 0,
                self == old(self),
                self.wf(),
                forall|k: int|
                    0 <= k < len ==> (#[trigger] counterexample@[k]) < self.states@.len(),
                forall|k: int|
                    0 <= k < i ==> cnt_src(
                        #[trigger] self.preds_of(counterexample@[k + 1] as int),
                        counterexample@[k] as int,
                        self.preds_of(counterexample@[k + 1] as int).len() as int,
                    ) == 1,
            decreases len - i,
        {
            let from = counterexample[i];
            let to = counterexample[i + 1];
            let c = count_sources(&self.state_predecessors[to].predecessors, from);
            if c != 1 {
                proof {
                    assert(cnt_src(
                        old(self).preds_of(counterexample@[i + 1] as int),
                        counterexample@[i as int] as int,
                        old(self).preds_of(counterexample@[i + 1] as int).len() as int,
                    ) == c);
                }
                return Err(PathMarkError { position: i, matched: c });
            }
            i = i + 1;
        }

        let mut i: usize = 0;
        while i < len
            invariant
                i <= len,
                len == counterexample@.len(),
                forall|k: int|
                    0 <= k < len ==> (#[trigger] counterexample@[k]) < self.states@.len(),
                self.initial_state == old(self).initial_state,
                self.bad_states == old(self).bad_states,
                self.labels == old(self).labels,
                self.state_predecessors == old(self).state_predecessors,
                self.states@.len() == old(self).states@.len(),
                forall|s: int|
                    0 <= s < self.states@.len() ==> (#[trigger] self.states@[s]) == if seq_has_upto(
                        counterexample@,
                        s,
                        i as int,
                    ) {
                        (State {
                            owner: Player::Path,
                            default_owner: Player::Path,
                            ..old(self).states@[s]
                        })
                    } else {
                        old(self).states@[s]
                    },
                forall|k: int|
                    0 <= k < len - 1 ==> cnt_src(
                        #[trigger] old(self).preds_of(counterexample@[k + 1] as int),
                        counterexample@[k] as int,
                        old(self).preds_of(counterexample@[k + 1] as int).len() as int,
                    ) == 1,
            decreases len - i,
        {
            let s = counterexample[i];
            let mut st = self.states[s];
            st.owner = Player::Path;
            st.default_owner = Player::Path;
            self.states[s] = st;
            i = i + 1;
            proof {
                assert forall|s2: int| 0 <= s2 < self.states@.len() implies (
                #[trigger] self.states@[s2]) == if seq_has_upto(counterexample@, s2, i as int) {
                    (State {
                        owner: Player::Path,
                        default_owner: Player::Path,
                        ..old(self).states@[s2]
                    })
                } else {
                    old(self).states@[s2]
                } by {
                    lemma_seq_has_upto_step(counterexample@, s2, i - 1);
                }
            }
        }
        proof {
            assert forall|s: int| 0 <= s < self.states@.len() implies (#[trigger] self.states@[s])
                == if seq_has(counterexample@, s) {
                (State {
                    owner: Player::Path,
                    default_owner: Player::Path,
                    ..old(self).states@[s]
                })
            } else {
                old(self).states@[s]
            } by {
                assert(seq_has_upto(counterexample@, s, len as int) <==> seq_has(
                    counterexample@,
                    s,
                ));
            }
        }

        let ghost states_after = self.states@;
        let mut i: usize = 0;
        while i + 1 < len
            invariant
                len == counterexample@.len(),
                len > 0 ==> i < len,
                len == 0 ==> i == 0,
                forall|k: int|
                    0 <= k < len ==> (#[trigger] counterexample@[k]) < self.states@.len(),
                self.initial_state == old(self).initial_state,
                self.bad_states == old(self).bad_states,
                self.labels == old(self).labels,
                self.states@ == states_after,
                self.states@.len() == old(self).states@.len(),
                self.state_predecessors@.len() == old(self).state_predecessors@.len(),
                self.state_predecessors@.len() == self.states@.len(),
                forall|t: int|
                    0 <= t < self.states@.len() ==> (#[trigger] self.state_predecessors@[t]).predecessors@.len()
                        == old(self).preds_of(t).len(),
                forall|t: int, j: int|
                    0 <= t < self.states@.len() && 0 <= j
                        < self.state_predecessors@[t].predecessors@.len() ==> ((
                    #[trigger] self.state_predecessors@[t].predecessors@[j]).source == old(
                        self,
                    ).preds_of(t)[j].source && (self.state_predecessors@[t].predecessors@[j].on_path
                        == (old(self).preds_of(t)[j].on_path || ce_edge_upto(
                        counterexample@,
                        old(self).preds_of(t)[j].source as int,
                        t,
                        i as int,
                    )))),
            decreases len - i,
        {
            let from = counterexample[i];
            let to = counterexample[i + 1];
            let m = self.state_predecessors[to].predecessors.len();
            let mut updated: Vec<Transition> = Vec::new();
            let mut j: usize = 0;
            while j < m
                invariant
                    j <= m,
                    to < self.state_predecessors@.len(),
                    m == self.state_predecessors@[to as int].predecessors@.len(),
                    updated@.len() == j,
                    forall|jj: int|
                        0 <= jj < j ==> ((#[trigger] updated@[jj]).source
                            == self.state_predecessors@[to as int].predecessors@[jj].source
                            && updated@[jj].on_path == (
                        self.state_predecessors@[to as int].predecessors@[jj].on_path
                            || self.state_predecessors@[to as int].predecessors@[jj].source
                            == from)),
                decreases m - j,
            {
                let tr = self.state_predecessors[to].predecessors[j];
                if tr.source == from {
                    updated.push(Transition { source: tr.source, on_path: true });
                } else {
                    updated.push(tr);
                }
                j = j + 1;
            }
            let ghost updated_view = updated@;
            let ghost preds0 = self.state_predecessors@;
            self.state_predecessors[to] = StatePredecessors { predecessors: updated };
            i = i + 1;
            proof {
                assert(self.state_predecessors@[to as int].predecessors@ == updated_view);
                assert forall|t: int|
                    0 <= t < self.states@.len() implies (
                #[trigger] self.state_predecessors@[t]).predecessors@.len() == old(self).preds_of(
                    t,
                ).len() by {
                    if t != to as int {
                        assert(self.state_predecessors@[t] == preds0[t]);
                    } else {
                        assert(preds0[t].predecessors@.len() == old(self).preds_of(t).len());
                    }
                }
                assert forall|t: int, j: int|
                    0 <= t < self.states@.len() && 0 <= j
                        < self.state_predecessors@[t].predecessors@.len() implies ((
                #[trigger] self.state_predecessors@[t].predecessors@[j]).source == old(
                    self,
                ).preds_of(t)[j].source && (self.state_predecessors@[t].predecessors@[j].on_path
                    == (old(self).preds_of(t)[j].on_path || ce_edge_upto(
                    counterexample@,
                    old(self).preds_of(t)[j].source as int,
                    t,
                    i as int,
                )))) by {
                    assert(0 <= j < preds0[t].predecessors@.len());
                    let e0 = preds0[t].predecessors@[j];
                    let u = e0.source as int;
                    assert(e0.source == old(self).preds_of(t)[j].source);
                    assert(ce_edge_upto(counterexample@, u, t, i as int) <==> (ce_edge_upto(
                        counterexample@,
                        u,
                        t,
                        i - 1,
                    ) || (counterexample@[i - 1] == u && counterexample@[i as int] == t))) by {
                        if ce_edge_upto(counterexample@, u, t, i as int) {
                            let w = choose|w: int|
                                0 <= w < i && w < counterexample@.len() - 1 && (
                                #[trigger] counterexample@[w]) == u && counterexample@[w + 1] == t;
                            if w < i - 1 {
                                assert(ce_edge_upto(counterexample@, u, t, i - 1));
                            }
                        }
                        if ce_edge_upto(counterexample@, u, t, i - 1) {
                            let w = choose|w: int|
                                0 <= w < i - 1 && w < counterexample@.len() - 1 && (
                                #[trigger] counterexample@[w]) == u && counterexample@[w + 1] == t;
                        }
                    }
                    if t == to as int {
                        assert(self.state_predecessors@[t].predecessors@[j] == updated_view[j]);
                        assert(updated_view[j].source == e0.source);
                        assert(updated_view[j].on_path == (e0.on_path || e0.source == from));
                    } else {
                        assert(self.state_predecessors@[t] == preds0[t]);
                    }
                }
            }
        }
        proof {
            assert forall|t: int, j: int|
                0 <= t < self.n() && 0 <= j < self.preds_of(t).len() implies ((
            #[trigger] self.preds_of(t)[j]).source == old(self).preds_of(t)[j].source && (
            self.preds_of(t)[j].on_path == (old(self).preds_of(t)[j].on_path || ce_edge(
                counterexample@,
                old(self).preds_of(t)[j].source as int,
                t,
            )))) by {
                assert(self.preds_of(t) == self.state_predecessors@[t].predecessors@);
                assert(0 <= j < self.state_predecessors@[t].predecessors@.len());
                let e1 = self.state_predecessors@[t].predecessors@[j];
                assert(e1.source == old(self).preds_of(t)[j].source);
                let u = old(self).preds_of(t)[j].source as int;
                let bound: int = if len == 0 {
                    0int
                } else {
                    len - 1
                };
                assert(ce_edge_upto(counterexample@, u, t, bound) <==> ce_edge(
                    counterexample@,
                    u,
                    t,
                )) by {
                    if ce_edge_upto(counterexample@, u, t, bound) {
                        let w = choose|w: int|
                            0 <= w < bound && w < counterexample@.len() - 1 && (
                            #[trigger] counterexample@[w]) == u && counterexample@[w + 1] == t;
                        assert(counterexample@[w] == u);
                    }
                    if ce_edge(counterexample@, u, t) {
                        let w = choose|w: int|
                            0 <= w < counterexample@.len() - 1 && (#[trigger] counterexample@[w])
                                == u && counterexample@[w + 1] == t;
                        assert(0 <= w < bound);
                    }
                }
            }
            assert forall|t: int|
                0 <= t < self.n() implies (#[trigger] self.preds_of(t)).len() == old(
                self,
            ).preds_of(t).len() by {
                assert(self.preds_of(t) == self.state_predecessors@[t].predecessors@);
            }
            assert forall|t: int, j: int|
                0 <= t < self.n() && 0 <= j < self.preds_of(t).len() implies (
            #[trigger] self.preds_of(t)[j]).source < self.states@.len() by {
                assert(self.preds_of(t) == self.state_predecessors@[t].predecessors@);
                assert(old(self).preds_of(t)[j].source < old(self).states@.len());
            }
            if graph_ok(old(self)) {
                lemma_graph_ok_preserved(old(self), self);
            }
        }
        Ok(())
    }

    /// Adds one state to the safe coalition: sets the owner and bumps the
    /// reference count.
    pub fn add_to_coalition(&mut self, state: usize)
        requires
            state < old(self).states@.len(),
            old(self).states@[state as int].change_count < usize::MAX,
        ensures
            final(self).states@ =~= old(self).states@.update(
                state as int,
                (State {
                    owner: Player::Safe,
                    change_count: (old(self).states@[state as int].change_count + 1) as usize,
                    ..old(self).states@[state as int]
                }),
            ),
            final(self).same_but_coalition(old(self)),
            old(self).coalition_inv() ==> final(self).coalition_inv(),
            old(self).wf() ==> final(self).wf(),
    {
        let mut st = self.states[state];
        st.owner = Player::Safe;
        st.change_count = st.change_count + 1;
        self.states[state] = st;
    proof {
            if old(self).wf() {
                lemma_wf_preserved(*old(self), *self);
            }
        }
    }

    /// Removes one reference; the owner falls back to the default owner only
    /// when the count reaches zero.
    pub fn remove_from_coalition(&mut self, state: usize)
        requires
            state < old(self).states@.len(),
            old(self).states@[state as int].change_count > 0,
        ensures
            final(self).states@ =~= old(self).states@.update(
                state as int,
                (State {
                    owner: if old(self).states@[state as int].change_count == 1 {
                        old(self).states@[state as int].default_owner
                    } else {
                        old(self).states@[state as int].owner
                    },
                    change_count: (old(self).states@[state as int].change_count - 1) as usize,
                    ..old(self).states@[state as int]
                }),
            ),
            final(self).same_but_coalition(old(self)),
            old(self).coalition_inv() ==> final(self).coalition_inv(),
            old(self).wf() ==> final(self).wf(),
    {
        let mut st = self.states[state];
        st.change_count = st.change_count - 1;
        if st.change_count == 0 {
            st.owner = st.default_owner;
        }
        self.states[state] = st;
    proof {
            if old(self).wf() {
                lemma_wf_preserved(*old(self), *self);
            }
        }
    }

    /// Adds when `add` holds, removes otherwise.
    pub fn add_or_remove_to_coalition(&mut self, state: usize, add: bool)
        requires
            state < old(self).states@.len(),
            add ==> old(self).states@[state as int].change_count < usize::MAX,
            !add ==> old(self).states@[state as int].change_count > 0,
        ensures
            final(self).states@ =~= old(self).states@.update(
                state as int,
                if add {
                    (State {
                        owner: Player::Safe,
                        change_count: (old(self).states@[state as int].change_count + 1) as usize,
                        ..old(self).states@[state as int]
                    })
                } else {
                    (State {
                        owner: if old(self).states@[state as int].change_count == 1 {
                            old(self).states@[state as int].default_owner
                        } else {
                            old(self).states@[state as int].owner
                        },
                        change_count: (old(self).states@[state as int].change_count - 1) as usize,
                        ..old(self).states@[state as int]
                    })
                },
            ),
            final(self).same_but_coalition(old(self)),
            old(self).coalition_inv() ==> final(self).coalition_inv(),
            old(self).wf() ==> final(self).wf(),
    {
        if add {
            self.add_to_coalition(state);
        } else {
            self.remove_from_coalition(state);
        }
    }

    /// Overwrites the owner of every listed state with `Safe`, without
    /// touching the reference counts.
    pub fn set_coalition(&mut self, coalition: &Vec<usize>)
        requires
            forall|i: int|
                0 <= i < coalition@.len() ==> (#[trigger] coalition@[i]) < old(
                    self,
                ).states@.len(),
        ensures
            final(self).same_but_coalition(old(self)),
            forall|s: int|
                0 <= s < final(self).states@.len() ==> (#[trigger] final(self).states@[s])
                    == if seq_has(coalition@, s) {
                    (State { owner: Player::Safe, ..old(self).states@[s] })
                } else {
                    old(self).states@[s]
                },
    {
        let len = coalition.len();
        let mut i: usize = 0;
        while i < len
            invariant
                i <= len,
                len == coalition@.len(),
                forall|k: int|
                    0 <= k < coalition@.len() ==> (#[trigger] coalition@[k]) < old(
                        self,
                    ).states@.len(),
                self.same_but_coalition(old(self)),
                forall|s: int|
                    0 <= s < self.states@.len() ==> (#[trigger] self.states@[s]) == if seq_has(
                        coalition@.take(i as int),
                        s,
                    ) {
                        (State { owner: Player::Safe, ..old(self).states@[s] })
                    } else {
                        old(self).states@[s]
                    },
            decreases len - i,
        {
            let state = coalition[i];
            let mut st = self.states[state];
            st.owner = Player::Safe;
            self.states[state] = st;
            i = i + 1;
            proof {
                assert forall|s: int| 0 <= s < self.states@.len() implies (
                #[trigger] self.states@[s]) == if seq_has(coalition@.take(i as int), s) {
                    (State { owner: Player::Safe, ..old(self).states@[s] })
                } else {
                    old(self).states@[s]
                } by {
                    lemma_seq_has_take_step(coalition@, i as int, s);
                }
            }
        }
        proof {
            assert(coalition@.take(len as int) =~= coalition@);
        }
    }

    /// Restores the default owner of every listed state, without touching
    /// the reference counts.
    pub fn reset_coalition(&mut self, coalition: &Vec<usize>)
        requires
            forall|i: int|
                0 <= i < coalition@.len() ==> (#[trigger] coalition@[i]) < old(
                    self,
                ).states@.len(),
        ensures
            final(self).same_but_coalition(old(self)),
            forall|s: int|
                0 <= s < final(self).states@.len() ==> (#[trigger] final(self).states@[s])
                    == if seq_has(coalition@, s) {
                    (State { owner: old(self).states@[s].default_owner, ..old(self).states@[s] })
                } else {
                    old(self).states@[s]
                },
    {
        let len = coalition.len();
        let mut i: usize = 0;
        while i < len
            invariant
                i <= len,
                len == coalition@.len(),
                forall|k: int|
                    0 <= k < coalition@.len() ==> (#[trigger] coalition@[k]) < old(
                        self,
                    ).states@.len(),
                self.same_but_coalition(old(self)),
                forall|s: int|
                    0 <= s < self.states@.len() ==> (#[trigger] self.states@[s]) == if seq_has(
                        coalition@.take(i as int),
                        s,
                    ) {
                        (State {
                            owner: old(self).states@[s].default_owner,
                            ..old(self).states@[s]
                        })
                    } else {
                        old(self).states@[s]
                    },
            decreases len - i,
        {
            let state = coalition[i];
            let mut st = self.states[state];
            st.owner = st.default_owner;
            self.states[state] = st;
            i = i + 1;
            proof {
                assert forall|s: int| 0 <= s < self.states@.len() implies (
                #[trigger] self.states@[s]) == if seq_has(coalition@.take(i as int), s) {
                    (State { owner: old(self).states@[s].default_owner, ..old(self).states@[s] })
                } else {
                    old(self).states@[s]
                } by {
                    lemma_seq_has_take_step(coalition@, i as int, s);
                }
            }
        }
        proof {
            assert(coalition@.take(len as int) =~= coalition@);
        }
    }

    /// The significant states: more than one successor and not bad — the
    /// only states where a choice can be exercised.
    pub fn get_significant_states(&self) -> (res: Vec<usize>)
        ensures
            forall|s: int|
                0 <= s < self.states@.len() ==> (seq_has(res@, s) <==> (
                self.states@[s].successor_count > 1 && !seq_has(self.bad_states@, s))),
            forall|k: int| 0 <= k < res@.len() ==> (#[trigger] res@[k]) < self.states@.len(),
            forall|k1: int, k2: int| 0 <= k1 < k2 < res@.len() ==> res@[k1] < res@[k2],
    {
        let mut res: Vec<usize> = Vec::new();
        let n = self.states.len();
        let mut i: usize = 0;
        while i < n
            invariant
                i <= n,
                n == self.states@.len(),
                forall|s: int|
                    0 <= s < i ==> (seq_has(res@, s) <==> (self.states@[s].successor_count > 1
                        && !seq_has(self.bad_states@, s))),
                forall|k: int| 0 <= k < res@.len() ==> (#[trigger] res@[k]) < i,
                forall|k1: int, k2: int| 0 <= k1 < k2 < res@.len() ==> res@[k1] < res@[k2],
            decreases n - i,
        {
            let significant = self.states[i].successor_count > 1 && !vec_contains_usize(
                &self.bad_states,
                i,
            );
            let ghost res0 = res@;
            if significant {
                res.push(i);
            }
            proof {
                if significant {
                    assert forall|s: int| 0 <= s < i + 1 implies (seq_has(res@, s) <==> (
                    self.states@[s].successor_count > 1 && !seq_has(self.bad_states@, s))) by {
                        lemma_seq_has_push(res0, i, s);
                    }
                } else {
                    assert forall|s: int| 0 <= s < i + 1 implies (seq_has(res@, s) <==> (
                    self.states@[s].successor_count > 1 && !seq_has(self.bad_states@, s))) by {
                        if s == i {
                            if seq_has(res@, s) {
                                let w = choose|w: int| 0 <= w < res@.len() && res@[w] == s;
                            }
                        }
                    }
                }
            }
            i = i + 1;
        }
        res
    }

    /// Resets the attractor scratch counter of every state: the full
    /// successor count for coalition states, one otherwise.
    pub fn reset_attractor_counts(&mut self)
        ensures
            final(self).same_but_attractor(old(self)),
            forall|s: int|
                0 <= s < final(self).states@.len() ==> (#[trigger] final(self).states@[s]).attractor_count
                    == (if old(self).states@[s].owner == Player::Safe {
                    old(self).states@[s].successor_count
                } else {
                    1
                }),
    {
        let n = self.states.len();
        let mut i: usize = 0;
        while i < n
            invariant
                i <= n,
                n == self.states@.len(),
                self.same_but_attractor(old(self)),
                forall|s: int|
                    0 <= s < i ==> (#[trigger] self.states@[s]).attractor_count == (if old(
                        self,
                    ).states@[s].owner == Player::Safe {
                        old(self).states@[s].successor_count
                    } else {
                        1
                    }),
            decreases n - i,
        {
            let mut st = self.states[i];
            st.attractor_count = if st.owner == Player::Safe {
                st.successor_count
            } else {
                1
            };
            self.states[i] = st;
            i = i + 1;
        }
    }


    /// A deep copy whose every component equals the original's, view for
    /// view; used to hand each solving pass its own game.
    pub fn clone_game(&self) -> (g: Game)
        ensures
            g.initial_state == self.initial_state,
            g.states@ == self.states@,
            g.bad_states@ == self.bad_states@,
            g.state_predecessors@.len() == self.state_predecessors@.len(),
            forall|t: int|
                0 <= t < self.state_predecessors@.len() ==> #[trigger] g.preds_of(t)
                    == self.preds_of(t),
            g.labels@.len() == self.labels@.len(),
            forall|l: int|
                0 <= l < self.labels@.len() ==> (#[trigger] g.labels@[l]).name@
                    == self.labels@[l].name@ && g.labels@[l].states@ == self.labels@[l].states@,
            self.wf() ==> g.wf(),
            self.coalition_inv() ==> g.coalition_inv(),
    {
        let mut states: Vec<State> = Vec::new();
        let n = self.states.len();
        let mut i: usize = 0;
        while i < n
            invariant
                i <= n,
                n == self.states@.len(),
                states@ =~= self.states@.take(i as int),
            decreases n - i,
        {
            states.push(self.states[i]);
            i = i + 1;
        }
        proof {
            assert(self.states@.take(n as int) =~= self.states@);
        }

        let mut state_predecessors: Vec<StatePredecessors> = Vec::new();
        let pn = self.state_predecessors.len();
        let mut t: usize = 0;
        while t < pn
            invariant
                t <= pn,
                pn == self.state_predecessors@.len(),
                state_predecessors@.len() == t,
                forall|t2: int|
                    0 <= t2 < t ==> (#[trigger] state_predecessors@[t2]).predecessors@
                        == self.preds_of(t2),
            decreases pn - t,
        {
            let m = self.state_predecessors[t].predecessors.len();
            let mut entries: Vec<Transition> = Vec::new();
            let mut j: usize = 0;
            while j < m
                invariant
                    j <= m,
                    t < self.state_predecessors@.len(),
                    m == self.preds_of(t as int).len(),
                    entries@ =~= self.preds_of(t as int).take(j as int),
                decreases m - j,
            {
                entries.push(self.state_predecessors[t].predecessors[j]);
                j = j + 1;
            }
            proof {
                assert(self.preds_of(t as int).take(m as int) =~= self.preds_of(t as int));
            }
            state_predecessors.push(StatePredecessors { predecessors: entries });
            t = t + 1;
        }

        let mut bad_states: Vec<usize> = Vec::new();
        let bn = self.bad_states.len();
        let mut b: usize = 0;
        while b < bn
            invariant
                b <= bn,
                bn == self.bad_states@.len(),
                bad_states@ =~= self.bad_states@.take(b as int),
            decreases bn - b,
        {
            bad_states.push(self.bad_states[b]);
            b = b + 1;
        }
        proof {
            assert(self.bad_states@.take(bn as int) =~= self.bad_states@);
        }

        let mut labels: Vec<Label> = Vec::new();
        let ln = self.labels.len();
        let mut l: usize = 0;
        while l < ln
            invariant
                l <= ln,
                ln == self.labels@.len(),
                labels@.len() == l,
                forall|l2: int|
                    0 <= l2 < l ==> (#[trigger] labels@[l2]).name@ == self.labels@[l2].name@
                        && labels@[l2].states@ == self.labels@[l2].states@,
            decreases ln - l,
        {
            let name = self.labels[l].name.clone();
            let sn = self.labels[l].states.len();
            let mut members: Vec<usize> = Vec::new();
            let mut k: usize = 0;
            while k < sn
                invariant
                    k <= sn,
                    l < self.labels@.len(),
                    sn == self.labels@[l as int].states@.len(),
                    members@ =~= self.labels@[l as int].states@.take(k as int),
                decreases sn - k,
            {
                members.push(self.labels[l].states[k]);
                k = k + 1;
            }
            proof {
                assert(self.labels@[l as int].states@.take(sn as int) =~= self.labels@[l as int].states@);
            }
            labels.push(Label { name, states: members });
            l = l + 1;
        }

        let g = Game {
            initial_state: self.initial_state,
            states,
            state_predecessors,
            bad_states,
            labels,
        };
        proof {
            if self.wf() {
                assert forall|t2: int, j: int|
                    0 <= t2 < g.n() && 0 <= j < g.preds_of(t2).len() implies (#[trigger] g.preds_of(
                    t2,
                )[j]).source < g.states@.len() by {
                    assert(g.preds_of(t2) == self.preds_of(t2));
                }
            }
        }
        g
    }

    /// Runs the counting attractor from the bad states and decides the
    /// winner for the current owner assignment: the reachability player
    /// exactly when the attractor captures a non-bad initial state
    /// ([`spec_winner`]). Only the attractor scratch counters are changed.
    pub fn determine_winner(&mut self) -> (winner: Player)
        requires
            old(self).wf(),
            graph_ok(old(self)),
        ensures
            final(self).same_but_attractor(old(self)),
            final(self).wf(),
            winner == spec_winner(old(self)),
    {
        self.reset_attractor_counts();
        proof {
            lemma_wf_preserved(*old(self), *self);
        }

        let ghost n = self.states@.len() as int;
        let ghost mut popped: Seq<usize> = Seq::empty();
        let ghost mut lvl: nat = 0;
        let mut open_set: Vec<usize> = Vec::new();
        let bad_count = self.bad_states.len();
        let mut bi: usize = 0;
        while bi < bad_count
            invariant
                bi <= bad_count,
                bad_count == self.bad_states@.len(),
                n == self.states@.len(),
                self.wf(),
                graph_ok(old(self)),
                self.same_but_attractor(old(self)),
                open_set@ =~= old(self).bad_states@.subrange(0, bi as int),
                forall|u: int|
                    0 <= u < n ==> (#[trigger] self.states@[u]).attractor_count == (
                    if seq_has_upto(old(self).bad_states@, u, bi as int) {
                        0nat
                    } else if old(self).states@[u].owner == Player::Safe {
                        old(self).states@[u].successor_count as nat
                    } else {
                        1nat
                    }),
            decreases bad_count - bi,
        {
            let b = self.bad_states[bi];
            let mut st = self.states[b];
            st.attractor_count = 0;
            let ghost prev = *self;
            self.states[b] = st;
            proof {
                lemma_wf_preserved(prev, *self);
                assert forall|u: int| 0 <= u < n implies (
                #[trigger] self.states@[u]).attractor_count == (if seq_has_upto(
                    old(self).bad_states@,
                    u,
                    bi + 1,
                ) {
                    0nat
                } else if old(self).states@[u].owner == Player::Safe {
                    old(self).states@[u].successor_count as nat
                } else {
                    1nat
                }) by {
                    lemma_seq_has_upto_step(old(self).bad_states@, u, bi as int);
                }
                assert(open_set@.push(b) =~= old(self).bad_states@.subrange(0, bi + 1));
            }
            open_set.push(b);
            bi = bi + 1;
        }
        proof {
            assert(open_set@ =~= old(self).bad_states@);
            assert forall|u: int| 0 <= u < n implies (
            #[trigger] self.states@[u]).attractor_count == clampsub(
                init_count(old(self), u),
                fired_list(old(self), popped, u),
            ) by {
                assert(seq_has_upto(old(self).bad_states@, u, bad_count as int) <==> seq_has(
                    old(self).bad_states@,
                    u,
                ));
            }
            assert(member_inv(old(self), self.states@, open_set@, popped)) by {
                assert forall|u: int|
                    0 <= u < n implies ((seq_has(open_set@, u) || seq_has(popped, u)) <==> ((
                #[trigger] self.states@[u]).attractor_count == 0 && (seq_has(
                    old(self).bad_states@,
                    u,
                ) || init_count(old(self), u) >= 1))) by {
                    assert(!seq_has(popped, u));
                    assert(seq_has(open_set@, u) <==> seq_has(old(self).bad_states@, u));
                }
            }
            assert forall|k: int| 0 <= k < open_set@.len() implies attr_at(old(self), lvl).contains(
                (#[trigger] open_set@[k]) as int,
            ) by {
                assert(seq_has(old(self).bad_states@, open_set@[k] as int));
            }
        }

        loop
            invariant
                n == self.states@.len(),
                self.wf(),
                old(self).wf(),
                graph_ok(old(self)),
                self.same_but_attractor(old(self)),
                forall|k: int|
                    0 <= k < open_set@.len() ==> (#[trigger] open_set@[k]) < self.states@.len(),
                forall|i: int| 0 <= i < popped.len() ==> (#[trigger] popped[i]) < self.states@.len(),
                forall|i1: int, i2: int|
                    0 <= i1 < i2 < popped.len() ==> popped[i1] != popped[i2],
                forall|k1: int, k2: int|
                    0 <= k1 < k2 < open_set@.len() ==> open_set@[k1] != open_set@[k2],
                forall|i: int, k: int|
                    0 <= i < popped.len() && 0 <= k < open_set@.len() ==> (#[trigger] popped[i])
                        != (#[trigger] open_set@[k]),
                forall|u: int|
                    0 <= u < n ==> (#[trigger] self.states@[u]).attractor_count == clampsub(
                        init_count(old(self), u),
                        fired_list(old(self), popped, u),
                    ),
                member_inv(old(self), self.states@, open_set@, popped),
                forall|i: int|
                    0 <= i < popped.len() ==> attr_at(old(self), lvl).contains(
                        (#[trigger] popped[i]) as int,
                    ),
                forall|k: int|
                    0 <= k < open_set@.len() ==> attr_at(old(self), lvl).contains(
                        (#[trigger] open_set@[k]) as int,
                    ),
                !seq_has(old(self).bad_states@, old(self).initial_state as int) ==> !(seq_has(
                    open_set@,
                    old(self).initial_state as int,
                ) || seq_has(popped, old(self).initial_state as int)),
            ensures
                self.wf(),
                self.same_but_attractor(old(self)),
                open_set@.len() == 0,
                forall|i: int| 0 <= i < popped.len() ==> (#[trigger] popped[i]) < self.states@.len(),
                forall|i1: int, i2: int|
                    0 <= i1 < i2 < popped.len() ==> popped[i1] != popped[i2],
                forall|u: int|
                    0 <= u < n ==> (#[trigger] self.states@[u]).attractor_count == clampsub(
                        init_count(old(self), u),
                        fired_list(old(self), popped, u),
                    ),
                member_inv(old(self), self.states@, open_set@, popped),
                !seq_has(old(self).bad_states@, old(self).initial_state as int) ==> !seq_has(
                    popped,
                    old(self).initial_state as int,
                ),
            decreases num_positive(self.states@, n) + open_set@.len(),
        {
            let ghost measure0 = num_positive(self.states@, n) + open_set@.len();
            let ghost open_before = open_set@;
            let open_index = match open_set.pop() {
                Some(v) => v,
                None => { break ; },
            };
            proof {
                assert(open_before =~= open_set@.push(open_index));
                let popped_old = popped;
                popped = popped.push(open_index);
                assert(popped =~= popped_old.push(open_index));
                assert(popped.drop_last() =~= popped_old);
                assert(open_before[open_before.len() - 1] == open_index);
                lemma_member_inv_shift(
                    old(self),
                    self.states@,
                    open_before,
                    open_set@,
                    popped_old,
                    popped,
                    open_index,
                );
                assert forall|i1: int, i2: int|
                    0 <= i1 < i2 < popped.len() implies popped[i1] != popped[i2] by {
                    if i2 == popped.len() - 1 {
                        assert(popped[i1] == popped_old[i1]);
                        assert(popped_old[i1] != open_before[open_before.len() - 1]);
                    } else {
                        assert(popped[i1] == popped_old[i1] && popped[i2] == popped_old[i2]);
                    }
                }
                assert forall|k1: int, k2: int|
                    0 <= k1 < k2 < open_set@.len() implies open_set@[k1] != open_set@[k2] by {
                    assert(open_set@[k1] == open_before[k1] && open_set@[k2] == open_before[k2]);
                }
                assert forall|i: int, k: int|
                    0 <= i < popped.len() && 0 <= k < open_set@.len() implies (
                #[trigger] popped[i]) != (#[trigger] open_set@[k]) by {
                    assert(open_set@[k] == open_before[k]);
                    if i == popped.len() - 1 {
                        assert(popped[i] == open_before[open_before.len() - 1]);
                        assert(open_before[k] != open_before[open_before.len() - 1]);
                    } else {
                        assert(popped[i] == popped_old[i]);
                    }
                }
                assert forall|i: int| 0 <= i < popped.len() implies attr_at(old(self), lvl).contains(
                    (#[trigger] popped[i]) as int,
                ) by {
                    if i == popped.len() - 1 {
                        assert(attr_at(old(self), lvl).contains(
                            open_before[open_before.len() - 1] as int,
                        ));
                    } else {
                        assert(popped[i] == popped_old[i]);
                    }
                }
                if !seq_has(old(self).bad_states@, old(self).initial_state as int) {
                    assert(!seq_has(popped, old(self).initial_state as int)) by {
                        if seq_has(popped, old(self).initial_state as int) {
                            lemma_seq_has_push(
                                popped_old,
                                open_index,
                                old(self).initial_state as int,
                            );
                            assert(seq_has(open_before, old(self).initial_state as int)
                                || seq_has(popped_old, old(self).initial_state as int));
                        }
                    }
                    assert(!seq_has(open_set@, old(self).initial_state as int)) by {
                        if seq_has(open_set@, old(self).initial_state as int) {
                            let w = choose|w: int|
                                0 <= w < open_set@.len() && open_set@[w] == old(
                                    self,
                                ).initial_state as int;
                            assert(open_before[w] == old(self).initial_state as int);
                        }
                    }
                }
            }
            let pred_count = self.state_predecessors[open_index].predecessors.len();
            proof {
                assert(self.preds_of(open_index as int) == old(self).preds_of(open_index as int));
            }
            let mut pi: usize = 0;
            while pi < pred_count
                invariant
                    pi <= pred_count,
                    open_index < self.states@.len(),
                    n == self.states@.len(),
                    pred_count == old(self).preds_of(open_index as int).len(),
                    self.wf(),
                    old(self).wf(),
                    graph_ok(old(self)),
                    self.same_but_attractor(old(self)),
                    popped.len() >= 1,
                    popped.last() == open_index,
                    forall|k: int|
                        0 <= k < open_set@.len() ==> (#[trigger] open_set@[k])
                            < self.states@.len(),
                    forall|i: int|
                        0 <= i < popped.len() ==> (#[trigger] popped[i]) < self.states@.len(),
                    forall|i1: int, i2: int|
                        0 <= i1 < i2 < popped.len() ==> popped[i1] != popped[i2],
                    forall|k1: int, k2: int|
                        0 <= k1 < k2 < open_set@.len() ==> open_set@[k1] != open_set@[k2],
                    forall|i: int, k: int|
                        0 <= i < popped.len() && 0 <= k < open_set@.len() ==> (#[trigger] popped[i])
                            != (#[trigger] open_set@[k]),
                    forall|u: int|
                        0 <= u < n ==> (#[trigger] self.states@[u]).attractor_count == clampsub(
                            init_count(old(self), u),
                            fired_list(old(self), popped.drop_last(), u) + cnt_usable(
                                old(self),
                                old(self).preds_of(open_index as int),
                                u,
                                pi as int,
                            ),
                        ),
                    member_inv(old(self), self.states@, open_set@, popped),
                    forall|i: int|
                        0 <= i < popped.len() ==> attr_at(old(self), lvl).contains(
                            (#[trigger] popped[i]) as int,
                        ),
                    forall|k: int|
                        0 <= k < open_set@.len() ==> attr_at(old(self), lvl).contains(
                            (#[trigger] open_set@[k]) as int,
                        ),
                    !seq_has(old(self).bad_states@, old(self).initial_state as int) ==> !(seq_has(
                        open_set@,
                        old(self).initial_state as int,
                    ) || seq_has(popped, old(self).initial_state as int)),
                    num_positive(self.states@, n) + open_set@.len() < measure0,
                decreases pred_count - pi,
            {
                let transition = self.state_predecessors[open_index].predecessors[pi];
                proof {
                    assert(self.preds_of(open_index as int) == old(self).preds_of(
                        open_index as int,
                    ));
                    assert(transition == old(self).preds_of(open_index as int)[pi as int]);
                }
                let mut source_state = self.states[transition.source];
                let ghost u = transition.source as int;
                if source_state.attractor_count > 0 {
                    let decrement = match source_state.owner {
                        Player::Reach => true,
                        Player::Safe => true,
                        Player::Path => transition.on_path,
                    };
                    proof {
                        assert(self.states@[u].owner == old(self).states@[u].owner);
                    }
                    if decrement {
                        source_state.attractor_count = source_state.attractor_count - 1;
                        let ghost prev = *self;
                        self.states[transition.source] = source_state;
                        proof {
                            lemma_wf_preserved(prev, *self);
                            lemma_num_positive_update(
                                prev.states@,
                                transition.source as int,
                                source_state,
                                n,
                            );
                            assert(usable_entry(
                                old(self),
                                u,
                                old(self).preds_of(open_index as int)[pi as int],
                            ));
                            assert forall|u2: int| 0 <= u2 < n implies (
                            #[trigger] self.states@[u2]).attractor_count == clampsub(
                                init_count(old(self), u2),
                                fired_list(old(self), popped.drop_last(), u2) + cnt_usable(
                                    old(self),
                                    old(self).preds_of(open_index as int),
                                    u2,
                                    pi + 1,
                                ),
                            ) by {}
                        }
                        if source_state.attractor_count == 0 {
                            proof {
                                assert(prev.states@[u].attractor_count > 0);
                                assert(!seq_has(old(self).bad_states@, u)) by {
                                    if seq_has(old(self).bad_states@, u) {
                                        assert(init_count(old(self), u) == 0);
                                        assert(prev.states@[u].attractor_count == clampsub(
                                            0,
                                            fired_list(old(self), popped.drop_last(), u)
                                                + cnt_usable(
                                                old(self),
                                                old(self).preds_of(open_index as int),
                                                u,
                                                pi as int,
                                            ),
                                        ));
                                    }
                                }
                                assert(init_count(old(self), u) >= 1);
                                if old(self).states@[u].owner == Player::Safe {
                                    lemma_cnt_usable_mono(
                                        old(self),
                                        old(self).preds_of(open_index as int),
                                        u,
                                        pi + 1,
                                        old(self).preds_of(open_index as int).len() as int,
                                    );
                                    lemma_fired_push(
                                        old(self),
                                        popped.drop_last(),
                                        open_index,
                                        u,
                                    );
                                    assert(popped.drop_last().push(open_index) =~= popped);
                                    assert(fired_list(old(self), popped, u) >= init_count(
                                        old(self),
                                        u,
                                    ));
                                }
                                assert(seq_has(popped, open_index as int)) by {
                                    assert(popped[popped.len() - 1] == open_index);
                                }
                                lemma_newly_attracted(
                                    old(self),
                                    popped,
                                    open_index as int,
                                    pi as int,
                                    u,
                                    lvl,
                                );
                                lvl = lvl + 1;
                                assert forall|i: int| 0 <= i < popped.len() implies attr_at(
                                    old(self),
                                    lvl,
                                ).contains((#[trigger] popped[i]) as int) by {
                                    lemma_attr_at_mono(old(self), (lvl - 1) as nat, lvl);
                                }
                                assert forall|k: int| 0 <= k < open_set@.len() implies attr_at(
                                    old(self),
                                    lvl,
                                ).contains((#[trigger] open_set@[k]) as int) by {
                                    lemma_attr_at_mono(old(self), (lvl - 1) as nat, lvl);
                                }
                            }
                            if transition.source == self.initial_state {
                                proof {
                                    assert(attr_at(old(self), lvl).contains(
                                        old(self).initial_state as int,
                                    ));
                                    assert(attracted(old(self), old(self).initial_state as int));
                                }
                                return Player::Reach;
                            }
                            let ghost open_pre = open_set@;
                            open_set.push(transition.source);
                            proof {
                                lemma_member_inv_attach(
                                    old(self),
                                    prev.states@,
                                    self.states@,
                                    open_pre,
                                    popped,
                                    transition.source,
                                );
                                assert(open_set@ =~= open_pre.push(transition.source));
                                assert forall|k1: int, k2: int|
                                    0 <= k1 < k2 < open_set@.len() implies open_set@[k1]
                                    != open_set@[k2] by {
                                    if k2 == open_set@.len() - 1 {
                                        assert(open_set@[k1] == open_pre[k1]);
                                        if open_pre[k1] == transition.source {
                                            assert(seq_has(open_pre, u));
                                        }
                                    } else {
                                        assert(open_set@[k1] == open_pre[k1] && open_set@[k2]
                                            == open_pre[k2]);
                                    }
                                }
                                assert forall|i: int, k: int|
                                    0 <= i < popped.len() && 0 <= k < open_set@.len() implies (
                                #[trigger] popped[i]) != (#[trigger] open_set@[k]) by {
                                    if k == open_set@.len() - 1 {
                                        if popped[i] == transition.source {
                                            assert(seq_has(popped, u));
                                        }
                                    } else {
                                        assert(open_set@[k] == open_pre[k]);
                                    }
                                }
                                assert forall|k: int|
                                    0 <= k < open_set@.len() implies attr_at(old(self), lvl).contains(
                                    (#[trigger] open_set@[k]) as int,
                                ) by {
                                    if k < open_set@.len() - 1 {
                                        assert(open_set@[k] == open_pre[k]);
                                    } else {
                                        assert(open_set@[k] == transition.source);
                                    }
                                }
                                if !seq_has(old(self).bad_states@, old(self).initial_state as int) {
                                    assert(!seq_has(open_set@, old(self).initial_state as int)) by {
                                        if seq_has(open_set@, old(self).initial_state as int) {
                                            lemma_seq_has_push(
                                                open_pre,
                                                transition.source,
                                                old(self).initial_state as int,
                                            );
                                        }
                                    }
                                }
                            }
                        } else {
                            proof {
                                lemma_member_inv_update(
                                    old(self),
                                    prev.states@,
                                    self.states@,
                                    open_set@,
                                    popped,
                                    u,
                                );
                            }
                        }
                    }
                } else {
                    proof {
                        assert forall|u2: int| 0 <= u2 < n implies (
                        #[trigger] self.states@[u2]).attractor_count == clampsub(
                            init_count(old(self), u2),
                            fired_list(old(self), popped.drop_last(), u2) + cnt_usable(
                                old(self),
                                old(self).preds_of(open_index as int),
                                u2,
                                pi + 1,
                            ),
                        ) by {}
                    }
                }
                pi = pi + 1;
            }
            proof {
                assert forall|u2: int| 0 <= u2 < n implies (
                #[trigger] self.states@[u2]).attractor_count == clampsub(
                    init_count(old(self), u2),
                    fired_list(old(self), popped, u2),
                ) by {
                    lemma_fired_push(old(self), popped.drop_last(), open_index, u2);
                    assert(popped.drop_last().push(open_index) =~= popped);
                }
            }
        }

        proof {
            let g0 = old(self);
            let c = Set::new(|s: int| seq_has(popped, s));
            assert forall|s: int| seq_has(g0.bad_states@, s) implies c.contains(s) by {
                let w = choose|w: int| 0 <= w < g0.bad_states@.len() && g0.bad_states@[w] == s;
                assert(0 <= s < n);
                assert(init_count(g0, s) == 0);
                assert(self.states@[s].attractor_count == 0);
                lemma_member_inv_lookup(g0, self.states@, open_set@, popped, s);
                assert(!seq_has(open_set@, s));
                assert(seq_has(popped, s));
            }
            assert forall|u: int| attr_cond(g0, c, u) implies c.contains(u) by {
                if seq_has(g0.bad_states@, u) {
                    assert(c.contains(u));
                } else {
                    if g0.states@[u].owner == Player::Safe {
                        assert forall|t2: int|
                            0 <= t2 < n && row_usable(g0, u, t2) > 0 implies seq_has(
                            popped,
                            t2,
                        ) by {
                            lemma_cnt_usable_to_entry(
                                g0,
                                g0.preds_of(t2),
                                u,
                                g0.preds_of(t2).len() as int,
                            );
                            let j2 = choose|j2: int|
                                0 <= j2 < g0.preds_of(t2).len() && usable_entry(
                                    g0,
                                    u,
                                    #[trigger] g0.preds_of(t2)[j2],
                                );
                            assert(c.contains(t2));
                        }
                        lemma_missing_zero(g0, popped, u, n);
                        lemma_fired_missing_conservation(g0, popped, u, n);
                        lemma_total_usable_is_edges(g0, u, n);
                        assert(fired_list(g0, popped, u) == g0.states@[u].successor_count);
                        assert(init_count(g0, u) == g0.states@[u].successor_count as nat);
                        assert(self.states@[u].attractor_count == 0);
                        assert(init_count(g0, u) >= 1);
                        lemma_member_inv_lookup(g0, self.states@, open_set@, popped, u);
                        assert(!seq_has(open_set@, u));
                        assert(seq_has(popped, u));
                    } else {
                        let (t2, j2) = choose|t2: int, j2: int|
                            0 <= t2 < g0.states@.len() && 0 <= j2 < g0.preds_of(t2).len()
                                && usable_entry(g0, u, #[trigger] g0.preds_of(t2)[j2])
                                && c.contains(t2);
                        lemma_entry_to_cnt_usable(
                            g0,
                            g0.preds_of(t2),
                            u,
                            j2,
                            g0.preds_of(t2).len() as int,
                        );
                        lemma_fired_from_member(g0, popped, t2, u);
                        assert(fired_list(g0, popped, u) >= 1);
                        assert(init_count(g0, u) == 1);
                        assert(self.states@[u].attractor_count == 0);
                        lemma_member_inv_lookup(g0, self.states@, open_set@, popped, u);
                        assert(!seq_has(open_set@, u));
                        assert(seq_has(popped, u));
                    }
                }
            }
            if attracted(g0, g0.initial_state as int) && !seq_has(
                g0.bad_states@,
                g0.initial_state as int,
            ) {
                let k = choose|k: nat| attr_at(g0, k).contains(g0.initial_state as int);
                lemma_attr_in_closed(g0, c, k);
                assert(c.contains(g0.initial_state as int));
                assert(false);
            }
        }
        Player::Safe
    }
}

/// Whether the vector holds the given value.
pub fn vec_contains_usize(v: &Vec<usize>, x: usize) -> (b: bool)
    ensures
        b == seq_has(v@, x as int),
{
    let n = v.len();
    let mut i: usize = 0;
    while i < n
        invariant
            i <= n,
            n == v@.len(),
            forall|k: int| 0 <= k < i ==> (#[trigger] v@[k]) != x,
        decreases n - i,
    {
        if v[i] == x {
            return true;
        }
        i = i + 1;
    }
    false
}

} // verus!
