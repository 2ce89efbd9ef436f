//! The cycle-tolerant fixed-point solver.
//!
//! Every reachable position is labelled with a signed rank: positive means
//! the controller (seat id 0) can force a win, non-positive a forced loss,
//! and the magnitude approximates the number of plies to the outcome. The
//! traversal is an explicit worklist (push "expand", later push "finish"),
//! and a provisional rank of zero seeds every state before its successors
//! are resolved, so cycles in the state graph bias toward "loss" instead of
//! recursing forever.
//!
//! The memo tables are keyed by an injective integer encoding of positions,
//! so the well-specified `HashMap<u64, _>` of the standard library carries
//! them.

use std::collections::HashMap;

use vstd::prelude::*;

use crate::game::{
    card_code, card_rank, clone_state, player_wf, wf, Card, Move, Phase, Player, State, StateModel,
    CONTROLLER,
};
use crate::rules::{lemma_successors_nonempty, lemma_successors_wf, spec_successors, successors};

verus! {

broadcast use vstd::std_specs::hash::group_hash_axioms;

/// Logical equivalence of two booleans.
pub fn iff(a: bool, b: bool) -> (r: bool)
    ensures
        r == (a == b),
{
    (!a && !b) || (a && b)
}

// ---------------------------------------------------------------------------
// Position encoding
// ---------------------------------------------------------------------------

/// A player packed into one small integer: identity, both slots, coins.
pub open spec fn player_code(p: Player) -> int {
    ((p.id * 8 + card_code(p.card1)) * 8 + card_code(p.card2)) * 16 + p.coins
}

/// A small tag for the phase, distinguishing every phase shape a well-formed
/// state can carry.
pub open spec fn phase_code(ph: Phase) -> int {
    match ph {
        Phase::Move => 0,
        Phase::EndTurn => 1,
        Phase::LoseInfluence(_) => 2,
        Phase::Challenge(m) => match m {
            Move::ForeignAid => 3,
            Move::Assassinate(_) => 4,
            Move::Steal(_) => 5,
            _ => 6,
        },
    }
}

/// The target carried by the phase, where it carries one.
pub open spec fn phase_target(ph: Phase) -> int {
    match ph {
        Phase::LoseInfluence(t) => t as int,
        Phase::Challenge(m) => match m {
            Move::Assassinate(t) => t as int,
            Move::Steal(t) => t as int,
            _ => 0,
        },
        _ => 0,
    }
}

/// The whole position packed into one integer, injectively on well-formed
/// states.
pub open spec fn spec_encode(s: StateModel) -> int {
    let second = if s.players.len() == 2 { player_code(s.players[1]) } else { 0 };
    ((((((s.players.len() - 1) * 2 + s.turn) * 8 + phase_code(s.phase)) * 4 + phase_target(s.phase))
        * 2048 + player_code(s.players[0])) * 2048) + second
}

/// The memo-table key of a position.
pub open spec fn key_of(s: StateModel) -> u64 {
    spec_encode(s) as u64
}

proof fn lemma_player_code_bound(p: Player)
    requires
        player_wf(p),
    ensures
        0 <= player_code(p) < 2048,
{
}

/// The packed key of a well-formed state fits comfortably in 64 bits.
pub proof fn lemma_encode_bound(s: StateModel)
    requires
        wf(s),
    ensures
        0 <= spec_encode(s) < 0x4000_0000,
{
    lemma_player_code_bound(s.players[0]);
    if s.players.len() == 2 {
        lemma_player_code_bound(s.players[1]);
    }
}

/// Unpacking one mixed-radix digit.
proof fn lemma_pack(a1: int, b1: int, a2: int, b2: int, r: int)
    by (nonlinear_arith)
    requires
        r >= 1,
        0 <= b1 < r,
        0 <= b2 < r,
        a1 * r + b1 == a2 * r + b2,
    ensures
        a1 == a2,
        b1 == b2,
{
}

proof fn lemma_player_code_inj(p1: Player, p2: Player)
    requires
        player_wf(p1),
        player_wf(p2),
        player_code(p1) == player_code(p2),
    ensures
        p1 == p2,
{
    let a1 = (p1.id * 8 + card_code(p1.card1)) * 8 + card_code(p1.card2);
    let a2 = (p2.id * 8 + card_code(p2.card1)) * 8 + card_code(p2.card2);
    lemma_pack(a1, p1.coins as int, a2, p2.coins as int, 16);
    lemma_pack(
        p1.id * 8 + card_code(p1.card1),
        card_code(p1.card2),
        p2.id * 8 + card_code(p2.card1),
        card_code(p2.card2),
        8,
    );
    lemma_pack(p1.id as int, card_code(p1.card1), p2.id as int, card_code(p2.card1), 8);
}

/// The phase of a well-formed state is determined by its code and target.
proof fn lemma_phase_inj(s1: StateModel, s2: StateModel)
    requires
        wf(s1),
        wf(s2),
        phase_code(s1.phase) == phase_code(s2.phase),
        phase_target(s1.phase) == phase_target(s2.phase),
    ensures
        s1.phase == s2.phase,
{
}

/// Injectivity: two well-formed states with the same packed encoding are the
/// same state, so the memo tables keyed by the encoding are in truth keyed
/// by positions.
pub proof fn lemma_encode_injective(s1: StateModel, s2: StateModel)
    requires
        wf(s1),
        wf(s2),
        spec_encode(s1) == spec_encode(s2),
    ensures
        s1 == s2,
{
    let sec1 = if s1.players.len() == 2 { player_code(s1.players[1]) } else { 0 };
    let sec2 = if s2.players.len() == 2 { player_code(s2.players[1]) } else { 0 };
    lemma_player_code_bound(s1.players[0]);
    lemma_player_code_bound(s2.players[0]);
    if s1.players.len() == 2 {
        lemma_player_code_bound(s1.players[1]);
    }
    if s2.players.len() == 2 {
        lemma_player_code_bound(s2.players[1]);
    }
    let x1 = ((((s1.players.len() - 1) * 2 + s1.turn) * 8 + phase_code(s1.phase)) * 4
        + phase_target(s1.phase)) * 2048 + player_code(s1.players[0]);
    let x2 = ((((s2.players.len() - 1) * 2 + s2.turn) * 8 + phase_code(s2.phase)) * 4
        + phase_target(s2.phase)) * 2048 + player_code(s2.players[0]);
    lemma_pack(x1, sec1, x2, sec2, 2048);
    let y1 = (((s1.players.len() - 1) * 2 + s1.turn) * 8 + phase_code(s1.phase)) * 4
        + phase_target(s1.phase);
    let y2 = (((s2.players.len() - 1) * 2 + s2.turn) * 8 + phase_code(s2.phase)) * 4
        + phase_target(s2.phase);
    lemma_pack(y1, player_code(s1.players[0]), y2, player_code(s2.players[0]), 2048);
    let z1 = ((s1.players.len() - 1) * 2 + s1.turn) * 8 + phase_code(s1.phase);
    let z2 = ((s2.players.len() - 1) * 2 + s2.turn) * 8 + phase_code(s2.phase);
    lemma_pack(z1, phase_target(s1.phase), z2, phase_target(s2.phase), 4);
    lemma_pack(
        (s1.players.len() - 1) * 2 + s1.turn,
        phase_code(s1.phase),
        (s2.players.len() - 1) * 2 + s2.turn,
        phase_code(s2.phase),
        8,
    );
    lemma_pack(s1.players.len() - 1, s1.turn, s2.players.len() - 1, s2.turn, 2);
    assert(s1.players.len() == s2.players.len());
    lemma_player_code_inj(s1.players[0], s2.players[0]);
    if s1.players.len() == 2 {
        lemma_player_code_inj(s1.players[1], s2.players[1]);
    }
    lemma_phase_inj(s1, s2);
    assert(s1.players =~= s2.players);
    assert(s1 =~= s2);
}

/// Injectivity carried over to the 64-bit keys.
pub proof fn lemma_key_injective(s1: StateModel, s2: StateModel)
    requires
        wf(s1),
        wf(s2),
        key_of(s1) == key_of(s2),
    ensures
        s1 == s2,
{
    lemma_encode_bound(s1);
    lemma_encode_bound(s2);
    lemma_encode_injective(s1, s2);
}

/// Executable packed key of a position.
pub fn encode(state: &State) -> (r: u64)
    requires
        wf(state@),
    ensures
        r == key_of(state@),
{
    proof {
        lemma_encode_bound(state@);
        lemma_player_code_bound(state@.players[0]);
        if state@.players.len() == 2 {
            lemma_player_code_bound(state@.players[1]);
        }
    }
    let n = state.players.len();
    let p0 = player_key(&state.players[0]);
    let second: u64 = if n == 2 { player_key(&state.players[1]) } else { 0 };
    let pc: u64 = match state.phase {
        Phase::Move => 0,
        Phase::EndTurn => 1,
        Phase::LoseInfluence(_) => 2,
        Phase::Challenge(m) => match m {
            Move::ForeignAid => 3,
            Move::Assassinate(_) => 4,
            Move::Steal(_) => 5,
            _ => 6,
        },
    };
    let pt: u64 = match state.phase {
        Phase::LoseInfluence(t) => t as u64,
        Phase::Challenge(m) => match m {
            Move::Assassinate(t) => t as u64,
            Move::Steal(t) => t as u64,
            _ => 0,
        },
        _ => 0,
    };
    let e = ((((((n as u64 - 1) * 2 + state.turn as u64) * 8 + pc) * 4 + pt) * 2048 + p0) * 2048)
        + second;
    e
}

fn player_key(p: &Player) -> (r: u64)
    requires
        player_wf(*p),
    ensures
        r as int == player_code(*p),
{
    ((p.id as u64 * 8 + card_rank(&p.card1) as u64) * 8 + card_rank(&p.card2) as u64) * 16
        + p.coins as u64
}

// ---------------------------------------------------------------------------
// The solver
// ---------------------------------------------------------------------------

/// Who decides at a state: in a challenge the non-acting side decides
/// whether to block; in a forced reveal the target decides which slot to
/// sacrifice; everywhere else the active player decides. The state counts as
/// the controller's turn iff that deciding party is the controller.
pub open spec fn spec_controller_decides(s: StateModel) -> bool {
    match s.phase {
        Phase::Challenge(_) => s.players[s.turn].id != CONTROLLER,
        Phase::LoseInfluence(p) => p == CONTROLLER,
        _ => s.players[s.turn].id == CONTROLLER,
    }
}

/// Executable decision attribution, for walking a solved strategy.
pub fn is_controller_turn(state: &State) -> (r: bool)
    requires
        wf(state@),
    ensures
        r == spec_controller_decides(state@),
{
    let turn_player = state.players[state.turn as usize].id;
    match state.phase {
        Phase::Challenge(_) => turn_player != CONTROLLER,
        Phase::LoseInfluence(p) => p == CONTROLLER,
        _ => turn_player == CONTROLLER,
    }
}

/// The rank of a terminal (single-player) state: plus one if the survivor is
/// the controller, minus one otherwise.
pub open spec fn terminal_rank(s: StateModel) -> int {
    if s.players[0].id == CONTROLLER {
        1
    } else {
        -1
    }
}

enum SolveStep {
    Expand,
    Finish,
}

/// A rank one step closer to a win, saturating at the integer ceiling.
pub open spec fn sat_inc(x: int) -> int {
    if x < i32::MAX as int {
        x + 1
    } else {
        x
    }
}

/// A rank one step deeper into a loss, saturating at the integer floor.
pub open spec fn sat_dec(x: int) -> int {
    if x > i32::MIN as int {
        x - 1
    } else {
        x
    }
}

/// Some successor rank is a controller win (positive).
pub open spec fn has_winning(ranks: Seq<int>) -> bool {
    exists|i: int| 0 <= i < ranks.len() && #[trigger] ranks[i] > 0
}

/// Some successor rank is a controller loss (zero or negative; the
/// provisional zero of an unresolved cycle member counts as a loss).
pub open spec fn has_losing(ranks: Seq<int>) -> bool {
    exists|i: int| 0 <= i < ranks.len() && #[trigger] ranks[i] <= 0
}

/// The back-propagation rule: given the ranks the finish step saw for the
/// successors of `s`, the deciding side picks its preferred partition — the
/// controller a win when one exists, the adversary a loss when one exists —
/// and within it a successor of numerically smallest rank; the new rank is
/// that successor's rank moved one step away from zero.
pub open spec fn rank_rule_holds(s: StateModel, ranks: Seq<int>, rank: int, idx: int) -> bool {
    let use_win = if spec_controller_decides(s) {
        has_winning(ranks)
    } else {
        !has_losing(ranks)
    };
    &&& 0 <= idx < ranks.len()
    &&& if use_win {
        &&& ranks[idx] > 0
        &&& (forall|i: int| 0 <= i < ranks.len() && #[trigger] ranks[i] > 0 ==> ranks[idx] <= ranks[i])
        &&& rank == sat_inc(ranks[idx])
    } else {
        &&& ranks[idx] <= 0
        &&& (forall|i: int| 0 <= i < ranks.len() && #[trigger] ranks[i] <= 0 ==> ranks[idx] <= ranks[i])
        &&& rank == sat_dec(ranks[idx])
    }
}

/// The ranks a finish step reads for a successor list: the recorded rank of
/// each successor's key, or the provisional zero where none is recorded.
pub open spec fn ranks_of(w: Map<u64, i32>, models: Seq<StateModel>) -> Seq<int> {
    Seq::new(
        models.len(),
        |i: int|
            if w.contains_key(key_of(models[i])) {
                w[key_of(models[i])] as int
            } else {
                0
            },
    )
}

/// The solver's output: the rank table, the preferred-successor table, and
/// the ghost record of which position each key encodes and of the successor
/// ranks each finish step read.
pub struct Solution {
    /// Signed rank per reached position, keyed by the position's encoding.
    pub winner: HashMap<u64, i32>,
    /// The chosen successor per non-terminal reached position.
    pub strategy: HashMap<u64, State>,
    /// Which well-formed position each key in `winner` stands for.
    pub states: Ghost<Map<u64, StateModel>>,
    /// Per non-terminal key, the successor ranks its finish step read, in
    /// successor order. A nonzero entry is that successor's final rank; a
    /// zero entry marks a successor that was still unresolved (a cycle back
    /// into the path), which the least-fixed-point convention reads as a
    /// loss.
    pub finish_ranks: Ghost<Map<u64, Seq<int>>>,
}

spec fn stack_wf(stk: Seq<(State, SolveStep)>) -> bool {
    forall|j: int| 0 <= j < stk.len() ==> wf((#[trigger] stk[j]).0@)
}

spec fn pending_finish(stk: Seq<(State, SolveStep)>, k: u64) -> bool {
    exists|j: int|
        0 <= j < stk.len() && (#[trigger] stk[j]).1 is Finish && key_of(stk[j].0@) == k
}

spec fn finish_entries_ok(
    stk: Seq<(State, SolveStep)>,
    w: Map<u64, i32>,
    g: Map<u64, StateModel>,
) -> bool {
    forall|j: int|
        0 <= j < stk.len() && (#[trigger] stk[j]).1 is Finish ==> {
            let k = key_of(stk[j].0@);
            &&& stk[j].0@.players.len() >= 2
            &&& w.contains_key(k)
            &&& w[k] == 0
            &&& g.contains_key(k)
            &&& g[k] == stk[j].0@
        }
}

spec fn finish_keys_distinct(stk: Seq<(State, SolveStep)>) -> bool {
    forall|j1: int, j2: int|
        #![trigger stk[j1], stk[j2]]
        0 <= j1 < j2 < stk.len() && stk[j1].1 is Finish && stk[j2].1 is Finish ==> key_of(
            stk[j1].0@,
        ) != key_of(stk[j2].0@)
}

/// The rank table always records encodings of well-formed positions.
pub open spec fn winner_ok(w: Map<u64, i32>, g: Map<u64, StateModel>) -> bool {
    forall|k: u64|
        #[trigger] w.contains_key(k) ==> g.contains_key(k) && key_of(g[k]) == k && wf(g[k])
}

/// Terminal positions carry their exact rank.
pub open spec fn terminal_ok(w: Map<u64, i32>, g: Map<u64, StateModel>) -> bool {
    forall|k: u64|
        #[trigger] w.contains_key(k) && g.contains_key(k) && g[k].players.len() == 1 ==> w[k]
            == terminal_rank(g[k])
}

/// A non-terminal key is either provisional (zero, with its finish step
/// still pending) or resolved (nonzero, with a recorded strategy and a
/// recorded finish snapshot).
spec fn branch_ok(
    w: Map<u64, i32>,
    g: Map<u64, StateModel>,
    st: Map<u64, State>,
    fr: Map<u64, Seq<int>>,
    stk: Seq<(State, SolveStep)>,
) -> bool {
    forall|k: u64|
        #[trigger] w.contains_key(k) && g.contains_key(k) && g[k].players.len() >= 2 ==> ((w[k]
            == 0 && pending_finish(stk, k)) || (w[k] != 0 && st.contains_key(k)
            && fr.contains_key(k)))
}

/// Every strategy entry sits at a non-terminal position and points to a real
/// successor of it; terminal positions get no strategy entry.
pub open spec fn strategy_ok(
    w: Map<u64, i32>,
    g: Map<u64, StateModel>,
    st: Map<u64, State>,
) -> bool {
    forall|k: u64|
        #[trigger] st.contains_key(k) ==> w.contains_key(k) && g.contains_key(k)
            && g[k].players.len() >= 2 && wf(st[k]@) && spec_successors(g[k]).contains(st[k]@)
}

/// What holds of every recorded finish snapshot. For a key `k` with snapshot
/// `fr[k]`: the key is resolved; every successor's key is recorded (the
/// table is closed under successors); each snapshot entry is either that
/// successor's final nonzero rank, or zero at a non-terminal successor that
/// was unresolved when the finish step ran; and the recorded rank and chosen
/// successor obey the back-propagation rule over the snapshot.
pub open spec fn backprop_ok(
    w: Map<u64, i32>,
    g: Map<u64, StateModel>,
    st: Map<u64, State>,
    fr: Map<u64, Seq<int>>,
) -> bool {
    forall|k: u64|
        #[trigger] fr.contains_key(k) ==> {
            let succ = spec_successors(g[k]);
            let ranks = fr[k];
            &&& w.contains_key(k)
            &&& g.contains_key(k)
            &&& g[k].players.len() >= 2
            &&& w[k] != 0
            &&& st.contains_key(k)
            &&& ranks.len() == succ.len()
            &&& (forall|i: int|
                0 <= i < succ.len() ==> w.contains_key(key_of(#[trigger] succ[i])))
            &&& (forall|i: int|
                0 <= i < succ.len() ==> ((#[trigger] ranks[i]) != 0 && w.contains_key(
                    key_of(succ[i]),
                ) && w[key_of(succ[i])] as int == ranks[i]) || (ranks[i] == 0 && g.contains_key(
                    key_of(succ[i]),
                ) && g[key_of(succ[i])].players.len() >= 2))
            &&& (exists|idx: int|
                st[k]@ == succ[idx] && rank_rule_holds(g[k], ranks, w[k] as int, idx))
        }
}

/// An entry of the worklist that is an expand step for position `x`.
spec fn expand_at(stk: Seq<(State, SolveStep)>, j2: int, x: StateModel) -> bool {
    stk[j2].1 is Expand && stk[j2].0@ == x
}

/// Position `x` is accounted for from the point of view of the finish entry
/// at index `j`: its key is recorded, or an expand step for it sits above
/// `j` and so will run before that finish step.
spec fn covered(stk: Seq<(State, SolveStep)>, w: Map<u64, i32>, j: int, x: StateModel) -> bool {
    w.contains_key(key_of(x)) || exists|j2: int|
        j < j2 < stk.len() && #[trigger] expand_at(stk, j2, x)
}

/// Every finish entry below `bound` has every successor of its position
/// covered: the last-in-first-out discipline then guarantees that when the
/// finish entry reaches the top, every successor's key is recorded.
spec fn cover_upto(stk: Seq<(State, SolveStep)>, w: Map<u64, i32>, bound: int) -> bool {
    forall|j: int, i: int|
        #![trigger stk[j], spec_successors(stk[j].0@)[i]]
        0 <= j < bound && stk[j].1 is Finish && 0 <= i < spec_successors(stk[j].0@).len()
            ==> covered(stk, w, j, spec_successors(stk[j].0@)[i])
}

/// Coverage survives popping the top entry, provided the recorded keys only
/// grow and the popped entry's key is recorded when it was an expand step.
proof fn lemma_cover_after_pop(
    pre: Seq<(State, SolveStep)>,
    w0: Map<u64, i32>,
    w1: Map<u64, i32>,
)
    requires
        pre.len() >= 1,
        cover_upto(pre, w0, pre.len() as int),
        forall|k: u64| #[trigger] w0.contains_key(k) ==> w1.contains_key(k),
        pre.last().1 is Finish || w1.contains_key(key_of(pre.last().0@)),
    ensures
        cover_upto(pre.drop_last(), w1, pre.len() - 1),
{
    let post = pre.drop_last();
    assert forall|j: int, i: int|
        #![trigger post[j], spec_successors(post[j].0@)[i]]
        0 <= j < pre.len() - 1 && post[j].1 is Finish && 0 <= i < spec_successors(
            post[j].0@,
        ).len() implies covered(post, w1, j, spec_successors(post[j].0@)[i]) by {
        assert(post[j] == pre[j]);
        let x = spec_successors(pre[j].0@)[i];
        assert(covered(pre, w0, j, x));
        if !w0.contains_key(key_of(x)) {
            let j2 = choose|j2: int| j < j2 < pre.len() && #[trigger] expand_at(pre, j2, x);
            if j2 < pre.len() - 1 {
                assert(post[j2] == pre[j2]);
                assert(expand_at(post, j2, x));
            } else {
                assert(pre.last().1 is Expand);
                assert(w1.contains_key(key_of(x)));
            }
        }
    }
}

/// Coverage below a bound survives appending entries and growing the
/// recorded keys.
proof fn lemma_cover_extend(
    s1: Seq<(State, SolveStep)>,
    s2: Seq<(State, SolveStep)>,
    w0: Map<u64, i32>,
    w1: Map<u64, i32>,
    bound: int,
)
    requires
        s1.len() <= s2.len(),
        forall|j: int| 0 <= j < s1.len() ==> s2[j] == s1[j],
        forall|k: u64| #[trigger] w0.contains_key(k) ==> w1.contains_key(k),
        bound <= s1.len(),
        cover_upto(s1, w0, bound),
    ensures
        cover_upto(s2, w1, bound),
{
    assert forall|j: int, i: int|
        #![trigger s2[j], spec_successors(s2[j].0@)[i]]
        0 <= j < bound && s2[j].1 is Finish && 0 <= i < spec_successors(s2[j].0@).len()
            implies covered(s2, w1, j, spec_successors(s2[j].0@)[i]) by {
        assert(s2[j] == s1[j]);
        let x = spec_successors(s1[j].0@)[i];
        assert(covered(s1, w0, j, x));
        if !w0.contains_key(key_of(x)) {
            let j2 = choose|j2: int| j < j2 < s1.len() && #[trigger] expand_at(s1, j2, x);
            assert(s2[j2] == s1[j2]);
            assert(expand_at(s2, j2, x));
        }
    }
}

/// Recorded snapshots survive recording a fresh key: the fresh key cannot be
/// referenced by any existing snapshot, because snapshots only reference
/// recorded keys.
proof fn lemma_backprop_fresh(
    w0: Map<u64, i32>,
    w1: Map<u64, i32>,
    g0: Map<u64, StateModel>,
    g1: Map<u64, StateModel>,
    st: Map<u64, State>,
    fr: Map<u64, Seq<int>>,
    k: u64,
    sm: StateModel,
    v: i32,
)
    requires
        backprop_ok(w0, g0, st, fr),
        forall|k2: u64| #[trigger] g0.contains_key(k2) ==> w0.contains_key(k2),
        !w0.contains_key(k),
        w1 == w0.insert(k, v),
        g1 == g0.insert(k, sm),
    ensures
        backprop_ok(w1, g1, st, fr),
{
    assert forall|k2: u64| #[trigger] fr.contains_key(k2) implies {
        let succ = spec_successors(g1[k2]);
        let ranks = fr[k2];
        &&& w1.contains_key(k2)
        &&& g1.contains_key(k2)
        &&& g1[k2].players.len() >= 2
        &&& w1[k2] != 0
        &&& st.contains_key(k2)
        &&& ranks.len() == succ.len()
        &&& (forall|i: int| 0 <= i < succ.len() ==> w1.contains_key(key_of(#[trigger] succ[i])))
        &&& (forall|i: int|
            0 <= i < succ.len() ==> ((#[trigger] ranks[i]) != 0 && w1.contains_key(key_of(succ[i]))
                && w1[key_of(succ[i])] as int == ranks[i]) || (ranks[i] == 0 && g1.contains_key(
                key_of(succ[i]),
            ) && g1[key_of(succ[i])].players.len() >= 2))
        &&& (exists|idx: int| st[k2]@ == succ[idx] && rank_rule_holds(g1[k2], ranks, w1[k2] as int, idx))
    } by {
        assert(w0.contains_key(k2));
        assert(k2 != k);
        assert(g1[k2] == g0[k2]);
        let succ = spec_successors(g0[k2]);
        let ranks = fr[k2];
        assert forall|i: int|
            0 <= i < succ.len() implies ((#[trigger] ranks[i]) != 0 && w1.contains_key(
            key_of(succ[i]),
        ) && w1[key_of(succ[i])] as int == ranks[i]) || (ranks[i] == 0 && g1.contains_key(
            key_of(succ[i]),
        ) && g1[key_of(succ[i])].players.len() >= 2) by {
            if ranks[i] != 0 && w0.contains_key(key_of(succ[i])) && w0[key_of(succ[i])] as int
                == ranks[i] {
                assert(key_of(succ[i]) != k);
            } else {
                assert(g0.contains_key(key_of(succ[i])));
                assert(w0.contains_key(key_of(succ[i])));
                assert(key_of(succ[i]) != k);
            }
        }
        let idx = choose|idx: int|
            st[k2]@ == succ[idx] && rank_rule_holds(g0[k2], ranks, w0[k2] as int, idx);
        assert(st[k2]@ == spec_successors(g1[k2])[idx] && rank_rule_holds(
            g1[k2],
            ranks,
            w1[k2] as int,
            idx,
        ));
    }
}

/// Recorded snapshots survive resolving a provisional key: any snapshot
/// entry that referenced it was zero, and the zero disjunct does not read
/// the rank table.
proof fn lemma_backprop_resolve(
    w0: Map<u64, i32>,
    w1: Map<u64, i32>,
    g: Map<u64, StateModel>,
    st0: Map<u64, State>,
    st1: Map<u64, State>,
    fr: Map<u64, Seq<int>>,
    k: u64,
    v: i32,
    c: State,
)
    requires
        backprop_ok(w0, g, st0, fr),
        w0.contains_key(k),
        w0[k] == 0,
        w1 == w0.insert(k, v),
        st1 == st0.insert(k, c),
    ensures
        backprop_ok(w1, g, st1, fr),
{
    assert forall|k2: u64| #[trigger] fr.contains_key(k2) implies {
        let succ = spec_successors(g[k2]);
        let ranks = fr[k2];
        &&& w1.contains_key(k2)
        &&& g.contains_key(k2)
        &&& g[k2].players.len() >= 2
        &&& w1[k2] != 0
        &&& st1.contains_key(k2)
        &&& ranks.len() == succ.len()
        &&& (forall|i: int| 0 <= i < succ.len() ==> w1.contains_key(key_of(#[trigger] succ[i])))
        &&& (forall|i: int|
            0 <= i < succ.len() ==> ((#[trigger] ranks[i]) != 0 && w1.contains_key(key_of(succ[i]))
                && w1[key_of(succ[i])] as int == ranks[i]) || (ranks[i] == 0 && g.contains_key(
                key_of(succ[i]),
            ) && g[key_of(succ[i])].players.len() >= 2))
        &&& (exists|idx: int| st1[k2]@ == succ[idx] && rank_rule_holds(g[k2], ranks, w1[k2] as int, idx))
    } by {
        assert(w0.contains_key(k2) && w0[k2] != 0);
        assert(k2 != k);
        let succ = spec_successors(g[k2]);
        let ranks = fr[k2];
        assert forall|i: int|
            0 <= i < succ.len() implies ((#[trigger] ranks[i]) != 0 && w1.contains_key(
            key_of(succ[i]),
        ) && w1[key_of(succ[i])] as int == ranks[i]) || (ranks[i] == 0 && g.contains_key(
            key_of(succ[i]),
        ) && g[key_of(succ[i])].players.len() >= 2) by {
            if ranks[i] != 0 && w0.contains_key(key_of(succ[i])) && w0[key_of(succ[i])] as int
                == ranks[i] {
                assert(key_of(succ[i]) != k);
            }
        }
        let idx = choose|idx: int|
            st0[k2]@ == succ[idx] && rank_rule_holds(g[k2], ranks, w0[k2] as int, idx);
        assert(st1[k2]@ == succ[idx] && rank_rule_holds(g[k2], ranks, w1[k2] as int, idx));
    }
}

/// When a finish entry reaches the top of the worklist, every successor of
/// its position already has a recorded key: coverage leaves no room for a
/// pending expand step above the top.
proof fn lemma_finish_reads(
    sm: StateModel,
    pre_stack: Seq<(State, SolveStep)>,
    w: Map<u64, i32>,
)
    requires
        pre_stack.len() >= 1,
        pre_stack[pre_stack.len() - 1].1 is Finish,
        pre_stack[pre_stack.len() - 1].0@ == sm,
        cover_upto(pre_stack, w, pre_stack.len() as int),
    ensures
        forall|i: int|
            0 <= i < spec_successors(sm).len() ==> w.contains_key(
                key_of(#[trigger] spec_successors(sm)[i]),
            ),
{
    let je = pre_stack.len() - 1;
    assert forall|i: int|
        0 <= i < spec_successors(sm).len() implies w.contains_key(
        key_of(#[trigger] spec_successors(sm)[i]),
    ) by {
        assert(pre_stack[je].1 is Finish);
        assert(spec_successors(pre_stack[je].0@)[i] == spec_successors(sm)[i]);
        assert(covered(pre_stack, w, je, spec_successors(sm)[i]));
        if !w.contains_key(key_of(spec_successors(sm)[i])) {
            let j2 = choose|j2: int|
                je < j2 < pre_stack.len() && #[trigger] expand_at(
                    pre_stack,
                    j2,
                    spec_successors(sm)[i],
                );
            assert(false);
        }
    }
}

/// The back-propagation rule follows from what the classification pass
/// guarantees about its two extremes.
proof fn lemma_rank_rule_from_pick(
    s: StateModel,
    ranks: Seq<int>,
    have_win: bool,
    best_win: i32,
    win_idx: usize,
    have_lose: bool,
    best_lose: i32,
    lose_idx: usize,
    is_ct: bool,
    use_win: bool,
    rank: i32,
    idx: usize,
)
    requires
        ranks.len() > 0,
        have_win ==> win_idx < ranks.len() && ranks[win_idx as int] == best_win as int && best_win
            > 0,
        have_win ==> forall|j: int|
            0 <= j < ranks.len() && (#[trigger] ranks[j]) > 0 ==> best_win as int <= ranks[j],
        !have_win ==> forall|j: int| 0 <= j < ranks.len() ==> (#[trigger] ranks[j]) <= 0,
        have_lose ==> lose_idx < ranks.len() && ranks[lose_idx as int] == best_lose as int
            && best_lose <= 0,
        have_lose ==> forall|j: int|
            0 <= j < ranks.len() && (#[trigger] ranks[j]) <= 0 ==> best_lose as int <= ranks[j],
        !have_lose ==> forall|j: int| 0 <= j < ranks.len() ==> (#[trigger] ranks[j]) > 0,
        have_win || have_lose,
        is_ct == spec_controller_decides(s),
        use_win == (if is_ct {
            have_win
        } else {
            !have_lose
        }),
        use_win ==> idx == win_idx && rank as int == sat_inc(best_win as int),
        !use_win ==> idx == lose_idx && rank as int == sat_dec(best_lose as int),
    ensures
        rank_rule_holds(s, ranks, rank as int, idx as int),
        rank != 0,
        idx < ranks.len(),
{
    if have_win {
        assert(has_winning(ranks));
    } else {
        assert(!has_winning(ranks));
    }
    if have_lose {
        assert(has_losing(ranks));
    } else {
        assert(!has_losing(ranks));
    }
    if use_win {
        assert(have_win);
    } else {
        assert(have_lose);
    }
}

/// The snapshot a finish step records stays tied to the rank table after the
/// provisional zero at its own key is resolved: nonzero entries reference
/// keys other than the resolved one, and zero entries sit at non-terminal
/// successors.
proof fn lemma_snapshot_entries(
    w0: Map<u64, i32>,
    w1: Map<u64, i32>,
    g: Map<u64, StateModel>,
    k: u64,
    sm: StateModel,
    v: i32,
    snap: Seq<int>,
)
    requires
        winner_ok(w0, g),
        terminal_ok(w0, g),
        w0.contains_key(k),
        w0[k] == 0,
        w1 == w0.insert(k, v),
        snap == ranks_of(w0, spec_successors(sm)),
        forall|i: int|
            0 <= i < spec_successors(sm).len() ==> w0.contains_key(
                key_of(#[trigger] spec_successors(sm)[i]),
            ),
    ensures
        forall|i: int|
            0 <= i < spec_successors(sm).len() ==> w1.contains_key(
                key_of(#[trigger] spec_successors(sm)[i]),
            ),
        forall|i: int|
            0 <= i < spec_successors(sm).len() ==> ((#[trigger] snap[i]) != 0 && w1.contains_key(
                key_of(spec_successors(sm)[i]),
            ) && w1[key_of(spec_successors(sm)[i])] as int == snap[i]) || (snap[i] == 0
                && g.contains_key(key_of(spec_successors(sm)[i])) && g[key_of(
                spec_successors(sm)[i],
            )].players.len() >= 2),
{
    assert forall|i: int|
        0 <= i < spec_successors(sm).len() implies ((#[trigger] snap[i]) != 0 && w1.contains_key(
        key_of(spec_successors(sm)[i]),
    ) && w1[key_of(spec_successors(sm)[i])] as int == snap[i]) || (snap[i] == 0 && g.contains_key(
        key_of(spec_successors(sm)[i]),
    ) && g[key_of(spec_successors(sm)[i])].players.len() >= 2) by {
        let ki = key_of(spec_successors(sm)[i]);
        assert(w0.contains_key(ki));
        assert(snap[i] == w0[ki] as int);
        if snap[i] != 0 {
            assert(ki != k);
            assert(w1[ki] == w0[ki]);
        } else {
            assert(g.contains_key(ki));
            assert(wf(g[ki]));
            if g[ki].players.len() == 1 {
                assert(w0[ki] == terminal_rank(g[ki]));
                assert(false);
            }
        }
    }
}

/// Recording a snapshot that satisfies the rule keeps the snapshot table
/// sound.
proof fn lemma_backprop_add(
    w: Map<u64, i32>,
    g: Map<u64, StateModel>,
    st: Map<u64, State>,
    fr0: Map<u64, Seq<int>>,
    fr1: Map<u64, Seq<int>>,
    k: u64,
    snap: Seq<int>,
    idx: int,
)
    requires
        backprop_ok(w, g, st, fr0),
        fr1 == fr0.insert(k, snap),
        w.contains_key(k),
        g.contains_key(k),
        g[k].players.len() >= 2,
        w[k] != 0,
        st.contains_key(k),
        snap.len() == spec_successors(g[k]).len(),
        forall|i: int|
            0 <= i < spec_successors(g[k]).len() ==> w.contains_key(
                key_of(#[trigger] spec_successors(g[k])[i]),
            ),
        forall|i: int|
            0 <= i < spec_successors(g[k]).len() ==> ((#[trigger] snap[i]) != 0 && w.contains_key(
                key_of(spec_successors(g[k])[i]),
            ) && w[key_of(spec_successors(g[k])[i])] as int == snap[i]) || (snap[i] == 0
                && g.contains_key(key_of(spec_successors(g[k])[i])) && g[key_of(
                spec_successors(g[k])[i],
            )].players.len() >= 2),
        st[k]@ == spec_successors(g[k])[idx],
        rank_rule_holds(g[k], snap, w[k] as int, idx),
    ensures
        backprop_ok(w, g, st, fr1),
{
    assert forall|k2: u64| #[trigger] fr1.contains_key(k2) implies {
        let succ = spec_successors(g[k2]);
        let ranks = fr1[k2];
        &&& w.contains_key(k2)
        &&& g.contains_key(k2)
        &&& g[k2].players.len() >= 2
        &&& w[k2] != 0
        &&& st.contains_key(k2)
        &&& ranks.len() == succ.len()
        &&& (forall|i: int| 0 <= i < succ.len() ==> w.contains_key(key_of(#[trigger] succ[i])))
        &&& (forall|i: int|
            0 <= i < succ.len() ==> ((#[trigger] ranks[i]) != 0 && w.contains_key(key_of(succ[i]))
                && w[key_of(succ[i])] as int == ranks[i]) || (ranks[i] == 0 && g.contains_key(
                key_of(succ[i]),
            ) && g[key_of(succ[i])].players.len() >= 2))
        &&& (exists|idx2: int| st[k2]@ == succ[idx2] && rank_rule_holds(g[k2], ranks, w[k2] as int, idx2))
    } by {
        if k2 == k {
            assert(fr1[k] == snap);
            assert(st[k]@ == spec_successors(g[k])[idx] && rank_rule_holds(
                g[k],
                snap,
                w[k] as int,
                idx,
            ));
        } else {
            assert(fr0.contains_key(k2));
            assert(fr1[k2] == fr0[k2]);
        }
    }
}

/// Re-establishing the worklist invariants after a fresh non-terminal
/// position was recorded provisionally, its finish entry pushed, and an
/// expand entry pushed for each of its successors not yet recorded.
proof fn lemma_after_expand(
    pre_stack: Seq<(State, SolveStep)>,
    old_stack: Seq<(State, SolveStep)>,
    base_stack: Seq<(State, SolveStep)>,
    stk: Seq<(State, SolveStep)>,
    w0: Map<u64, i32>,
    w1: Map<u64, i32>,
    g0: Map<u64, StateModel>,
    g1: Map<u64, StateModel>,
    st: Map<u64, State>,
    fr: Map<u64, Seq<int>>,
    k: u64,
    sm: StateModel,
    init: StateModel,
)
    requires
        pre_stack.len() >= 1,
        old_stack == pre_stack.drop_last(),
        pre_stack[pre_stack.len() - 1].1 is Expand,
        pre_stack[pre_stack.len() - 1].0@ == sm,
        base_stack.len() == old_stack.len() + 1,
        forall|j: int| 0 <= j < old_stack.len() ==> base_stack[j] == old_stack[j],
        base_stack[old_stack.len() as int].1 is Finish,
        base_stack[old_stack.len() as int].0@ == sm,
        stk.len() >= base_stack.len(),
        forall|j: int| 0 <= j < base_stack.len() ==> stk[j] == base_stack[j],
        forall|j: int| base_stack.len() <= j < stk.len() ==> (#[trigger] stk[j]).1 is Expand,
        finish_entries_ok(pre_stack, w0, g0),
        finish_keys_distinct(pre_stack),
        branch_ok(w0, g0, st, fr, pre_stack),
        cover_upto(stk, w1, old_stack.len() as int),
        forall|i2: int|
            0 <= i2 < spec_successors(sm).len() ==> covered(
                stk,
                w1,
                old_stack.len() as int,
                #[trigger] spec_successors(sm)[i2],
            ),
        !w0.contains_key(k),
        key_of(sm) == k,
        sm.players.len() >= 2,
        w1 == w0.insert(k, 0),
        g1 == g0.insert(k, sm),
        w0.contains_key(key_of(init)) || exists|j: int|
            0 <= j < pre_stack.len() && (#[trigger] pre_stack[j]).0@ == init,
    ensures
        finish_entries_ok(stk, w1, g1),
        finish_keys_distinct(stk),
        branch_ok(w1, g1, st, fr, stk),
        cover_upto(stk, w1, stk.len() as int),
        w1.contains_key(key_of(init)) || exists|j: int|
            0 <= j < stk.len() && (#[trigger] stk[j]).0@ == init,
{
    assert(forall|j: int| 0 <= j < old_stack.len() ==> old_stack[j] == pre_stack[j]);
    assert forall|j: int, i2: int|
        #![trigger stk[j], spec_successors(stk[j].0@)[i2]]
        0 <= j < stk.len() && stk[j].1 is Finish && 0 <= i2 < spec_successors(stk[j].0@).len()
            implies covered(stk, w1, j, spec_successors(stk[j].0@)[i2]) by {
        if j < old_stack.len() {
        } else if j == old_stack.len() {
            assert(stk[j].0@ == sm);
            assert(covered(stk, w1, old_stack.len() as int, spec_successors(sm)[i2]));
        } else {
            assert(stk[j].1 is Expand);
            assert(false);
        }
    }
    assert forall|j: int|
        0 <= j < stk.len() && (#[trigger] stk[j]).1 is Finish implies {
        let k2 = key_of(stk[j].0@);
        &&& stk[j].0@.players.len() >= 2
        &&& w1.contains_key(k2)
        &&& w1[k2] == 0
        &&& g1.contains_key(k2)
        &&& g1[k2] == stk[j].0@
    } by {
        if j < old_stack.len() {
            assert(stk[j] == base_stack[j]);
            assert(base_stack[j] == old_stack[j]);
            assert(old_stack[j] == pre_stack[j]);
            assert(pre_stack[j].1 is Finish);
            assert(w0.contains_key(key_of(pre_stack[j].0@)));
            assert(key_of(pre_stack[j].0@) != k);
        } else if j == old_stack.len() {
            assert(stk[j] == base_stack[j]);
            assert(stk[j].0@ == sm);
        } else {
            assert(stk[j].1 is Expand);
            assert(false);
        }
    }
    assert forall|j1: int, j2: int|
        #![trigger stk[j1], stk[j2]]
        0 <= j1 < j2 < stk.len() && stk[j1].1 is Finish && stk[j2].1 is Finish implies key_of(
        stk[j1].0@,
    ) != key_of(stk[j2].0@) by {
        if j2 > old_stack.len() {
            assert(stk[j2].1 is Expand);
            assert(false);
        } else {
            assert(stk[j1] == base_stack[j1]);
            assert(base_stack[j1] == old_stack[j1]);
            assert(stk[j1] == pre_stack[j1]);
            if j2 < old_stack.len() {
                assert(stk[j2] == base_stack[j2]);
                assert(base_stack[j2] == old_stack[j2]);
                assert(stk[j2] == pre_stack[j2]);
            } else {
                assert(stk[j2] == base_stack[j2]);
                assert(stk[j2].0@ == sm);
                assert(w0.contains_key(key_of(pre_stack[j1].0@)));
                assert(!w0.contains_key(k));
            }
        }
    }
    assert forall|k2: u64|
        #[trigger] w1.contains_key(k2) && g1.contains_key(k2) && g1[k2].players.len() >= 2
            implies ((w1[k2] == 0 && pending_finish(stk, k2)) || (w1[k2] != 0 && st.contains_key(
        k2,
    ) && fr.contains_key(k2))) by {
        if k2 == k {
            assert(stk[old_stack.len() as int] == base_stack[old_stack.len() as int]);
            assert(stk[old_stack.len() as int].1 is Finish);
            assert(key_of(stk[old_stack.len() as int].0@) == k2);
        } else {
            assert(w0.contains_key(k2));
            assert(g0.contains_key(k2) && g0[k2] == g1[k2]);
            if w1[k2] == 0 {
                assert(w0[k2] == 0);
                assert(pending_finish(pre_stack, k2));
                let j = choose|j: int|
                    0 <= j < pre_stack.len() && (#[trigger] pre_stack[j]).1 is Finish && key_of(
                        pre_stack[j].0@,
                    ) == k2;
                assert(j < old_stack.len());
                assert(stk[j] == base_stack[j]);
                assert(base_stack[j] == old_stack[j]);
                assert(stk[j] == pre_stack[j]);
                assert(pending_finish(stk, k2));
            } else {
                assert(st.contains_key(k2) && fr.contains_key(k2));
            }
        }
    }
    if !w1.contains_key(key_of(init)) {
        let j = choose|j: int|
            0 <= j < pre_stack.len() && (#[trigger] pre_stack[j]).0@ == init;
        if j < old_stack.len() {
            assert(stk[j] == base_stack[j]);
            assert(base_stack[j] == old_stack[j]);
            assert(stk[j].0@ == init);
        } else {
            assert(pre_stack[j].0@ == sm);
            assert(false);
        }
    }
}

/// Re-establishing the worklist invariants after a terminal position was
/// recorded with its exact rank.
proof fn lemma_after_terminal(
    pre_stack: Seq<(State, SolveStep)>,
    old_stack: Seq<(State, SolveStep)>,
    w0: Map<u64, i32>,
    w1: Map<u64, i32>,
    g0: Map<u64, StateModel>,
    g1: Map<u64, StateModel>,
    st: Map<u64, State>,
    fr: Map<u64, Seq<int>>,
    k: u64,
    sm: StateModel,
    v: i32,
    init: StateModel,
)
    requires
        pre_stack.len() >= 1,
        old_stack == pre_stack.drop_last(),
        pre_stack[pre_stack.len() - 1].1 is Expand,
        pre_stack[pre_stack.len() - 1].0@ == sm,
        finish_entries_ok(pre_stack, w0, g0),
        finish_keys_distinct(pre_stack),
        branch_ok(w0, g0, st, fr, pre_stack),
        terminal_ok(w0, g0),
        !w0.contains_key(k),
        key_of(sm) == k,
        sm.players.len() == 1,
        v == terminal_rank(sm),
        w1 == w0.insert(k, v),
        g1 == g0.insert(k, sm),
        w0.contains_key(key_of(init)) || exists|j: int|
            0 <= j < pre_stack.len() && (#[trigger] pre_stack[j]).0@ == init,
    ensures
        finish_entries_ok(old_stack, w1, g1),
        finish_keys_distinct(old_stack),
        branch_ok(w1, g1, st, fr, old_stack),
        terminal_ok(w1, g1),
        w1.contains_key(key_of(init)) || exists|j: int|
            0 <= j < old_stack.len() && (#[trigger] old_stack[j]).0@ == init,
{
    assert(forall|j: int| 0 <= j < old_stack.len() ==> old_stack[j] == pre_stack[j]);
    assert forall|j: int|
        0 <= j < old_stack.len() && (#[trigger] old_stack[j]).1 is Finish implies {
        let k2 = key_of(old_stack[j].0@);
        &&& old_stack[j].0@.players.len() >= 2
        &&& w1.contains_key(k2)
        &&& w1[k2] == 0
        &&& g1.contains_key(k2)
        &&& g1[k2] == old_stack[j].0@
    } by {
        assert(pre_stack[j].1 is Finish);
        assert(w0.contains_key(key_of(pre_stack[j].0@)));
        assert(key_of(pre_stack[j].0@) != k);
    }
    assert forall|k2: u64|
        #[trigger] w1.contains_key(k2) && g1.contains_key(k2) && g1[k2].players.len() == 1
            implies w1[k2] == terminal_rank(g1[k2]) by {
        if k2 != k {
            assert(w1[k2] == terminal_rank(g1[k2]));
        }
    }
    assert forall|k2: u64|
        #[trigger] w1.contains_key(k2) && g1.contains_key(k2) && g1[k2].players.len() >= 2
            implies ((w1[k2] == 0 && pending_finish(old_stack, k2)) || (w1[k2] != 0
        && st.contains_key(k2) && fr.contains_key(k2))) by {
        if k2 != k && w1[k2] == 0 {
            assert(pending_finish(pre_stack, k2));
            let j = choose|j: int|
                0 <= j < pre_stack.len() && (#[trigger] pre_stack[j]).1 is Finish && key_of(
                    pre_stack[j].0@,
                ) == k2;
            assert(j < old_stack.len());
            assert(old_stack[j] == pre_stack[j]);
            assert(pending_finish(old_stack, k2));
        }
    }
    if !w1.contains_key(key_of(init)) {
        let j = choose|j: int|
            0 <= j < pre_stack.len() && (#[trigger] pre_stack[j]).0@ == init;
        if j < old_stack.len() {
            assert(old_stack[j].0@ == init);
        } else {
            assert(pre_stack[j].0@ == sm);
            assert(false);
        }
    }
}

/// Re-establishing the worklist invariants after a finish step resolved its
/// position: the pending key leaves the provisional set and gains its
/// strategy and snapshot.
proof fn lemma_after_finish(
    pre_stack: Seq<(State, SolveStep)>,
    old_stack: Seq<(State, SolveStep)>,
    w0: Map<u64, i32>,
    w1: Map<u64, i32>,
    g: Map<u64, StateModel>,
    st0: Map<u64, State>,
    st1: Map<u64, State>,
    fr0: Map<u64, Seq<int>>,
    fr1: Map<u64, Seq<int>>,
    k: u64,
    sm: StateModel,
    v: i32,
    c: State,
    snap: Seq<int>,
    init: StateModel,
)
    requires
        pre_stack.len() >= 1,
        old_stack == pre_stack.drop_last(),
        pre_stack[pre_stack.len() - 1].1 is Finish,
        pre_stack[pre_stack.len() - 1].0@ == sm,
        finish_entries_ok(pre_stack, w0, g),
        finish_keys_distinct(pre_stack),
        branch_ok(w0, g, st0, fr0, pre_stack),
        terminal_ok(w0, g),
        key_of(sm) == k,
        v != 0,
        w1 == w0.insert(k, v),
        st1 == st0.insert(k, c),
        fr1 == fr0.insert(k, snap),
        w0.contains_key(key_of(init)) || exists|j: int|
            0 <= j < pre_stack.len() && (#[trigger] pre_stack[j]).0@ == init,
    ensures
        finish_entries_ok(old_stack, w1, g),
        finish_keys_distinct(old_stack),
        branch_ok(w1, g, st1, fr1, old_stack),
        terminal_ok(w1, g),
        w1.contains_key(key_of(init)) || exists|j: int|
            0 <= j < old_stack.len() && (#[trigger] old_stack[j]).0@ == init,
{
    assert(forall|j: int| 0 <= j < old_stack.len() ==> old_stack[j] == pre_stack[j]);
    let je = pre_stack.len() - 1;
    assert forall|j: int|
        0 <= j < old_stack.len() && (#[trigger] old_stack[j]).1 is Finish implies {
        let k2 = key_of(old_stack[j].0@);
        &&& old_stack[j].0@.players.len() >= 2
        &&& w1.contains_key(k2)
        &&& w1[k2] == 0
        &&& g.contains_key(k2)
        &&& g[k2] == old_stack[j].0@
    } by {
        assert(pre_stack[je].1 is Finish);
        assert(pre_stack[je].0@ == sm);
        assert(old_stack[j] == pre_stack[j]);
        assert(key_of(pre_stack[j].0@) != key_of(pre_stack[je].0@));
    }
    assert forall|k2: u64|
        #[trigger] w1.contains_key(k2) && g.contains_key(k2) && g[k2].players.len() >= 2
            implies ((w1[k2] == 0 && pending_finish(old_stack, k2)) || (w1[k2] != 0
        && st1.contains_key(k2) && fr1.contains_key(k2))) by {
        if k2 != k && w1[k2] == 0 {
            assert(pending_finish(pre_stack, k2));
            let j = choose|j: int|
                0 <= j < pre_stack.len() && (#[trigger] pre_stack[j]).1 is Finish && key_of(
                    pre_stack[j].0@,
                ) == k2;
            assert(j < old_stack.len());
            assert(old_stack[j] == pre_stack[j]);
            assert(pending_finish(old_stack, k2));
        }
    }
    assert forall|k2: u64|
        #[trigger] w1.contains_key(k2) && g.contains_key(k2) && g[k2].players.len() == 1
            implies w1[k2] == terminal_rank(g[k2]) by {
        if k2 != k {
            assert(w1[k2] == terminal_rank(g[k2]));
        } else {
            assert(pre_stack[je].1 is Finish);
            assert(g[k].players.len() >= 2);
        }
    }
    if !w1.contains_key(key_of(init)) {
        let j = choose|j: int|
            0 <= j < pre_stack.len() && (#[trigger] pre_stack[j]).0@ == init;
        if j < old_stack.len() {
            assert(old_stack[j].0@ == init);
        } else {
            assert(pre_stack[j].0@ == sm);
            assert(w0.contains_key(key_of(sm)));
            assert(false);
        }
    }
}

/// What the invariants yield once the worklist is empty: no provisional
/// ranks are left, every recorded non-terminal position carries a strategy
/// and a snapshot, the table is closed under successors, and the recorded
/// rank sits one step beyond the chosen successor's final rank wherever that
/// successor was resolved at finish time.
proof fn lemma_final_tables(
    w: Map<u64, i32>,
    g: Map<u64, StateModel>,
    st: Map<u64, State>,
    fr: Map<u64, Seq<int>>,
    stk: Seq<(State, SolveStep)>,
)
    requires
        stk.len() == 0,
        winner_ok(w, g),
        terminal_ok(w, g),
        branch_ok(w, g, st, fr, stk),
        backprop_ok(w, g, st, fr),
    ensures
        forall|k: u64| #[trigger] w.contains_key(k) ==> w[k] != 0,
        forall|k: u64|
            #[trigger] w.contains_key(k) && g[k].players.len() >= 2 ==> st.contains_key(k)
                && fr.contains_key(k),
        forall|k: u64, i: int|
            #[trigger] w.contains_key(k) && g[k].players.len() >= 2 && 0 <= i < spec_successors(
                g[k],
            ).len() ==> w.contains_key(key_of(#[trigger] spec_successors(g[k])[i])),
        forall|k: u64|
            #[trigger] w.contains_key(k) && g[k].players.len() >= 2 ==> {
                let kc = key_of(st[k]@);
                &&& w.contains_key(kc)
                &&& (w[k] > 0 ==> w[kc] > 0 && w[k] as int == sat_inc(w[kc] as int))
                &&& (w[k] < -1 ==> w[kc] < 0 && w[k] as int == sat_dec(w[kc] as int))
            },
{
    assert forall|k: u64| #[trigger] w.contains_key(k) implies w[k] != 0 by {
        if g[k].players.len() >= 2 {
            assert(!pending_finish(stk, k));
        } else {
            assert(g[k].players.len() == 1);
            assert(w[k] == terminal_rank(g[k]));
        }
    }
    assert forall|k: u64|
        #[trigger] w.contains_key(k) && g[k].players.len() >= 2 implies st.contains_key(k)
        && fr.contains_key(k) by {
        assert(!pending_finish(stk, k));
    }
    assert forall|k: u64, i: int|
        #[trigger] w.contains_key(k) && g[k].players.len() >= 2 && 0 <= i < spec_successors(
            g[k],
        ).len() implies w.contains_key(key_of(#[trigger] spec_successors(g[k])[i])) by {
        assert(!pending_finish(stk, k));
        assert(fr.contains_key(k));
    }
    assert forall|k: u64|
        #[trigger] w.contains_key(k) && g[k].players.len() >= 2 implies {
        let kc = key_of(st[k]@);
        &&& w.contains_key(kc)
        &&& (w[k] > 0 ==> w[kc] > 0 && w[k] as int == sat_inc(w[kc] as int))
        &&& (w[k] < -1 ==> w[kc] < 0 && w[k] as int == sat_dec(w[kc] as int))
    } by {
        assert(!pending_finish(stk, k));
        assert(fr.contains_key(k));
        let succ = spec_successors(g[k]);
        let ranks = fr[k];
        let idx = choose|idx: int|
            st[k]@ == succ[idx] && rank_rule_holds(g[k], ranks, w[k] as int, idx);
        let kc = key_of(succ[idx]);
        assert(w.contains_key(kc));
        let uw = if spec_controller_decides(g[k]) {
            has_winning(ranks)
        } else {
            !has_losing(ranks)
        };
        if uw {
            assert(ranks[idx] > 0);
            assert(w[kc] as int == ranks[idx]);
            assert(w[k] as int == sat_inc(ranks[idx]));
        } else {
            assert(ranks[idx] <= 0);
            assert(w[k] as int == sat_dec(ranks[idx]));
            if w[k] < -1 {
                assert(ranks[idx] != 0);
                assert(w[kc] as int == ranks[idx]);
            }
        }
    }
}

/// The rank a classification loop sees for successor `j`: the recorded rank,
/// or the provisional zero if the key is not recorded yet.
spec fn rank_at(w: Map<u64, i32>, v: Seq<State>, j: int) -> int {
    if w.contains_key(key_of(v[j]@)) {
        w[key_of(v[j]@)] as int
    } else {
        0
    }
}

struct Extremes {
    have_win: bool,
    best_win: i32,
    win_idx: usize,
    have_lose: bool,
    best_lose: i32,
    lose_idx: usize,
}

/// Partition the successors into winning (rank above zero) and losing
/// (everything else, the provisional zero included), tracking within each
/// class the first successor of numerically smallest rank.
#[verifier::loop_isolation(false)]
fn pick_extremes(succs: &Vec<State>, winner: &HashMap<u64, i32>) -> (r: Extremes)
    requires
        forall|i: int| 0 <= i < succs@.len() ==> wf((#[trigger] succs@[i])@),
    ensures
        r.have_win ==> r.win_idx < succs@.len() && rank_at(winner@, succs@, r.win_idx as int)
            == r.best_win && r.best_win > 0,
        r.have_win ==> forall|j: int|
            0 <= j < succs@.len() && rank_at(winner@, succs@, j) > 0 ==> r.best_win <= rank_at(
                winner@,
                succs@,
                j,
            ),
        !r.have_win ==> forall|j: int| 0 <= j < succs@.len() ==> rank_at(winner@, succs@, j) <= 0,
        r.have_lose ==> r.lose_idx < succs@.len() && rank_at(winner@, succs@, r.lose_idx as int)
            == r.best_lose && r.best_lose <= 0,
        r.have_lose ==> forall|j: int|
            0 <= j < succs@.len() && rank_at(winner@, succs@, j) <= 0 ==> r.best_lose <= rank_at(
                winner@,
                succs@,
                j,
            ),
        !r.have_lose ==> forall|j: int| 0 <= j < succs@.len() ==> rank_at(winner@, succs@, j) > 0,
        succs@.len() > 0 ==> r.have_win || r.have_lose,
{
    let mut r = Extremes {
        have_win: false,
        best_win: 0,
        win_idx: 0,
        have_lose: false,
        best_lose: 0,
        lose_idx: 0,
    };
    let m = succs.len();
    for i in 0..m
        invariant
            r.have_win ==> r.win_idx < i && rank_at(winner@, succs@, r.win_idx as int)
                == r.best_win && r.best_win > 0,
            r.have_win ==> forall|j: int|
                0 <= j < i && rank_at(winner@, succs@, j) > 0 ==> r.best_win <= rank_at(
                    winner@,
                    succs@,
                    j,
                ),
            !r.have_win ==> forall|j: int| 0 <= j < i ==> rank_at(winner@, succs@, j) <= 0,
            r.have_lose ==> r.lose_idx < i && rank_at(winner@, succs@, r.lose_idx as int)
                == r.best_lose && r.best_lose <= 0,
            r.have_lose ==> forall|j: int|
                0 <= j < i && rank_at(winner@, succs@, j) <= 0 ==> r.best_lose <= rank_at(
                    winner@,
                    succs@,
                    j,
                ),
            !r.have_lose ==> forall|j: int| 0 <= j < i ==> rank_at(winner@, succs@, j) > 0,
            i > 0 ==> r.have_win || r.have_lose,
    {
        let sk = encode(&succs[i]);
        let rank_i: i32 = match winner.get(&sk) {
            Some(v) => *v,
            None => 0,
        };
        proof {
            assert(rank_i as int == rank_at(winner@, succs@, i as int));
        }
        if rank_i > 0 {
            if !r.have_win || rank_i < r.best_win {
                r.have_win = true;
                r.best_win = rank_i;
                r.win_idx = i;
            }
        } else {
            if !r.have_lose || rank_i < r.best_lose {
                r.have_lose = true;
                r.best_lose = rank_i;
                r.lose_idx = i;
            }
        }
    }
    r
}

/// Solve the full reachable graph from `initial_state`.
///
/// The worklist seeds every newly met non-terminal position with the
/// provisional rank zero before expanding its successors — the least-fixed-
/// point convention: a cycle met before it is resolved reads as a loss — and
/// finishes a position once its successors were expanded, ranking it by the
/// decision attribution of `spec_controller_decides`: the deciding side
/// prefers its quickest win, and in a lost position the slowest loss.
///
/// On return: the rank table covers the initial position and holds no
/// provisional zeros; every key is the encoding of one well-formed position
/// (injectively, by `lemma_key_injective`); terminal positions carry exactly
/// plus or minus one, and only they lack a strategy entry; the table is
/// closed under successors of recorded non-terminal positions; and each
/// non-terminal position's rank and chosen successor obey the
/// back-propagation rule (`rank_rule_holds`) over the snapshot of successor
/// ranks its finish step read (`finish_ranks`), whose nonzero entries are
/// final table values. In particular, wherever the recorded rank is not the
/// minus-one that an unresolved cycle produces, it is exactly one saturating
/// step beyond the chosen successor's final rank.
#[verifier::loop_isolation(false)]
#[verifier::spinoff_prover]
#[verifier::rlimit(100)]
pub fn solve(initial_state: &State) -> (r: Solution)
    requires
        wf(initial_state@),
    ensures
        winner_ok(r.winner@, r.states@),
        terminal_ok(r.winner@, r.states@),
        strategy_ok(r.winner@, r.states@, r.strategy@),
        backprop_ok(r.winner@, r.states@, r.strategy@, r.finish_ranks@),
        forall|k: u64| #[trigger] r.winner@.contains_key(k) ==> r.winner@[k] != 0,
        forall|k: u64|
            #[trigger] r.winner@.contains_key(k) && r.states@[k].players.len() >= 2
                ==> r.strategy@.contains_key(k) && r.finish_ranks@.contains_key(k),
        // The table is closed under successors of recorded non-terminal
        // positions: the whole reachable graph is materialized.
        forall|k: u64, i: int|
            #[trigger] r.winner@.contains_key(k) && r.states@[k].players.len() >= 2 && 0 <= i
                < spec_successors(r.states@[k]).len() ==> r.winner@.contains_key(
                key_of(#[trigger] spec_successors(r.states@[k])[i]),
            ),
        // The chosen successor's key is recorded, and where the recorded
        // rank is not the minus-one of an unresolved cycle, it is exactly
        // one step beyond the chosen successor's final rank.
        forall|k: u64|
            #[trigger] r.winner@.contains_key(k) && r.states@[k].players.len() >= 2 ==> {
                let kc = key_of(r.strategy@[k]@);
                &&& r.winner@.contains_key(kc)
                &&& (r.winner@[k] > 0 ==> r.winner@[kc] > 0 && r.winner@[k] as int == sat_inc(
                    r.winner@[kc] as int,
                ))
                &&& (r.winner@[k] < -1 ==> r.winner@[kc] < 0 && r.winner@[k] as int == sat_dec(
                    r.winner@[kc] as int,
                ))
            },
        r.winner@.contains_key(key_of(initial_state@)),
        r.winner@[key_of(initial_state@)] != 0,
        r.states@.contains_key(key_of(initial_state@)) && r.states@[key_of(initial_state@)]
            == initial_state@,
{
    let ghost init = initial_state@;
    let mut winner: HashMap<u64, i32> = HashMap::new();
    let mut strategy: HashMap<u64, State> = HashMap::new();
    let ghost mut seen: Map<u64, StateModel> = Map::empty();
    let ghost mut finish_ranks: Map<u64, Seq<int>> = Map::empty();
    // The set of keys recorded so far, as integers: it can only grow, it
    // lives inside the finite key range, and the loop terminates because
    // every iteration either records a fresh key or shrinks the stack.
    let ghost mut used: Set<int> = Set::empty();
    proof {
        vstd::set_lib::lemma_int_range(0, 0x4000_0000);
    }

    let mut stack: Vec<(State, SolveStep)> = Vec::new();
    stack.push((clone_state(initial_state), SolveStep::Expand));
    proof {
        assert(stack@.len() == 1);
        assert(stack@[0].0@ == init);
    }

    while stack.len() > 0
        invariant
            stack_wf(stack@),
            finish_entries_ok(stack@, winner@, seen),
            finish_keys_distinct(stack@),
            winner_ok(winner@, seen),
            terminal_ok(winner@, seen),
            branch_ok(winner@, seen, strategy@, finish_ranks, stack@),
            strategy_ok(winner@, seen, strategy@),
            backprop_ok(winner@, seen, strategy@, finish_ranks),
            cover_upto(stack@, winner@, stack@.len() as int),
            forall|k: u64| #[trigger] seen.contains_key(k) ==> winner@.contains_key(k),
            winner@.contains_key(key_of(init)) || exists|j: int|
                0 <= j < stack@.len() && (#[trigger] stack@[j]).0@ == init,
            winner@.contains_key(key_of(init)) ==> seen.contains_key(key_of(init))
                && seen[key_of(init)] == init,
            used.finite(),
            used.subset_of(vstd::set_lib::set_int_range(0, 0x4000_0000)),
            used.len() <= 0x4000_0000,
            forall|k: u64| #[trigger] winner@.contains_key(k) <==> used.contains(k as int),
        decreases 0x4000_0000 - used.len(), stack@.len(),
    {
        let ghost pre_stack = stack@;
        let (state, step) = stack.pop().unwrap();
        let ghost old_stack = stack@;
        let ghost sm = state@;
        let ghost pre_winner = winner@;
        let ghost pre_seen = seen;
        let ghost pre_strategy = strategy@;
        let ghost pre_fr = finish_ranks;
        proof {
            assert(wf(sm));
            assert(forall|j: int| 0 <= j < old_stack.len() ==> old_stack[j] == pre_stack[j]);
        }
        match step {
            SolveStep::Expand => {
                let k = encode(&state);
                if winner.contains_key(&k) {
                    proof {
                        lemma_cover_after_pop(pre_stack, pre_winner, winner@);
                        if !winner@.contains_key(key_of(init)) {
                            let j = choose|j: int|
                                0 <= j < pre_stack.len() && (#[trigger] pre_stack[j]).0@ == init;
                            if j < old_stack.len() {
                                assert(old_stack[j].0@ == init);
                            } else {
                                assert(pre_stack[j].0@ == sm);
                                lemma_key_injective(sm, init);
                                assert(false);
                            }
                        }
                    }
                } else if state.players.len() == 1 {
                    let rank: i32 = if state.players[0].id == CONTROLLER {
                        1
                    } else {
                        -1
                    };
                    winner.insert(k, rank);
                    proof {
                        lemma_encode_bound(sm);
                        used = used.insert(k as int);
                        vstd::set_lib::lemma_int_range(0, 0x4000_0000);
                        vstd::set_lib::lemma_len_subset(
                            used,
                            vstd::set_lib::set_int_range(0, 0x4000_0000),
                        );
                        seen = seen.insert(k, sm);
                        lemma_cover_after_pop(pre_stack, pre_winner, winner@);
                        lemma_backprop_fresh(
                            pre_winner,
                            winner@,
                            pre_seen,
                            seen,
                            strategy@,
                            finish_ranks,
                            k,
                            sm,
                            rank,
                        );
                        lemma_after_terminal(
                            pre_stack,
                            old_stack,
                            pre_winner,
                            winner@,
                            pre_seen,
                            seen,
                            strategy@,
                            finish_ranks,
                            k,
                            sm,
                            rank,
                            init,
                        );
                        if k == key_of(init) {
                            lemma_key_injective(sm, init);
                        }
                    }
                } else {
                    let succs = successors(&state);
                    proof {
                        lemma_successors_wf(sm);
                    }
                    winner.insert(k, 0);
                    proof {
                        lemma_encode_bound(sm);
                        used = used.insert(k as int);
                        vstd::set_lib::lemma_int_range(0, 0x4000_0000);
                        vstd::set_lib::lemma_len_subset(
                            used,
                            vstd::set_lib::set_int_range(0, 0x4000_0000),
                        );
                        seen = seen.insert(k, sm);
                        lemma_cover_after_pop(pre_stack, pre_winner, winner@);
                        lemma_backprop_fresh(
                            pre_winner,
                            winner@,
                            pre_seen,
                            seen,
                            strategy@,
                            finish_ranks,
                            k,
                            sm,
                            0,
                        );
                    }
                    stack.push((state, SolveStep::Finish));
                    let ghost base_stack = stack@;
                    proof {
                        assert(base_stack[base_stack.len() - 1].0@ == sm);
                        assert(pending_finish(base_stack, k));
                        lemma_cover_extend(
                            old_stack,
                            base_stack,
                            winner@,
                            winner@,
                            old_stack.len() as int,
                        );
                    }
                    let m = succs.len();
                    for i in 0..m
                        invariant
                            stack@.len() >= base_stack.len(),
                            forall|j: int|
                                0 <= j < base_stack.len() ==> stack@[j] == base_stack[j],
                            forall|j: int|
                                base_stack.len() <= j < stack@.len() ==> (
                                #[trigger] stack@[j]).1 is Expand,
                            stack_wf(stack@),
                            cover_upto(stack@, winner@, old_stack.len() as int),
                            forall|i2: int|
                                0 <= i2 < i ==> covered(
                                    stack@,
                                    winner@,
                                    old_stack.len() as int,
                                    #[trigger] spec_successors(sm)[i2],
                                ),
                    {
                        proof {
                            assert(succs@[i as int]@ == spec_successors(sm)[i as int]);
                        }
                        let ghost stk0 = stack@;
                        let sk = encode(&succs[i]);
                        if !winner.contains_key(&sk) {
                            stack.push((clone_state(&succs[i]), SolveStep::Expand));
                        }
                        proof {
                            lemma_cover_extend(
                                stk0,
                                stack@,
                                winner@,
                                winner@,
                                old_stack.len() as int,
                            );
                            assert forall|i2: int|
                                0 <= i2 < i + 1 implies covered(
                                stack@,
                                winner@,
                                old_stack.len() as int,
                                #[trigger] spec_successors(sm)[i2],
                            ) by {
                                let x = spec_successors(sm)[i2];
                                if i2 < i {
                                    if !winner@.contains_key(key_of(x)) {
                                        let j2 = choose|j2: int|
                                            old_stack.len() < j2 < stk0.len()
                                                && #[trigger] expand_at(stk0, j2, x);
                                        assert(stack@[j2] == stk0[j2]);
                                        assert(expand_at(stack@, j2, x));
                                    }
                                } else {
                                    if !winner@.contains_key(sk) {
                                        assert(expand_at(stack@, stack@.len() - 1, x));
                                    }
                                }
                            }
                        }
                    }
                    proof {
                        assert(forall|j: int|
                            0 <= j < base_stack.len() ==> stack@[j] == base_stack[j]);
                        lemma_after_expand(
                            pre_stack,
                            old_stack,
                            base_stack,
                            stack@,
                            pre_winner,
                            winner@,
                            pre_seen,
                            seen,
                            strategy@,
                            finish_ranks,
                            k,
                            sm,
                            init,
                        );
                        if k == key_of(init) {
                            lemma_key_injective(sm, init);
                        }
                    }
                }
            },
            SolveStep::Finish => {
                let k = encode(&state);
                proof {
                    let je = pre_stack.len() - 1;
                    assert(pre_stack[je].1 is Finish);
                    assert(pre_stack[je].0@ == sm);
                    assert(winner@.contains_key(k) && winner@[k] == 0);
                    assert(seen[k] == sm);
                    assert(sm.players.len() >= 2);
                }
                let succs = successors(&state);
                proof {
                    lemma_successors_wf(sm);
                    lemma_successors_nonempty(sm);
                }
                let ex = pick_extremes(&succs, &winner);
                let turn_player = state.players[state.turn as usize].id;
                let is_ct = match state.phase {
                    Phase::Challenge(_) => turn_player != CONTROLLER,
                    Phase::LoseInfluence(p) => p == CONTROLLER,
                    _ => turn_player == CONTROLLER,
                };
                let use_win: bool = if is_ct {
                    ex.have_win
                } else {
                    !ex.have_lose
                };
                let (rank, idx): (i32, usize) = if use_win {
                    (
                        if ex.best_win < i32::MAX {
                            ex.best_win + 1
                        } else {
                            ex.best_win
                        },
                        ex.win_idx,
                    )
                } else {
                    (
                        if ex.best_lose > i32::MIN {
                            ex.best_lose - 1
                        } else {
                            ex.best_lose
                        },
                        ex.lose_idx,
                    )
                };
                let ghost succ_models = spec_successors(sm);
                let ghost snap = ranks_of(pre_winner, succ_models);
                proof {
                    lemma_finish_reads(sm, pre_stack, pre_winner);
                    // The snapshot is exactly what the classification read.
                    assert forall|jj: int|
                        0 <= jj < succ_models.len() implies #[trigger] snap[jj] == rank_at(
                        winner@,
                        succs@,
                        jj,
                    ) by {
                        assert(succs@[jj]@ == succ_models[jj]);
                    }
                    assert(is_ct == spec_controller_decides(sm));
                    if ex.have_win {
                        assert(snap[ex.win_idx as int] == rank_at(winner@, succs@, ex.win_idx as int));
                    } else {
                        assert forall|i2: int|
                            0 <= i2 < snap.len() implies !((#[trigger] snap[i2]) > 0) by {
                            assert(snap[i2] == rank_at(winner@, succs@, i2));
                        }
                    }
                    if ex.have_lose {
                        assert(snap[ex.lose_idx as int] == rank_at(winner@, succs@, ex.lose_idx as int));
                        assert forall|i2: int|
                            0 <= i2 < snap.len() && (#[trigger] snap[i2]) <= 0 implies ex.best_lose as int
                            <= snap[i2] by {
                            assert(snap[i2] == rank_at(winner@, succs@, i2));
                        }
                    } else {
                        assert forall|i2: int|
                            0 <= i2 < snap.len() implies !((#[trigger] snap[i2]) <= 0) by {
                            assert(snap[i2] == rank_at(winner@, succs@, i2));
                        }
                    }
                    if ex.have_win {
                        assert forall|i2: int|
                            0 <= i2 < snap.len() && (#[trigger] snap[i2]) > 0 implies ex.best_win as int
                            <= snap[i2] by {
                            assert(snap[i2] == rank_at(winner@, succs@, i2));
                        }
                    }
                    lemma_rank_rule_from_pick(
                        sm,
                        snap,
                        ex.have_win,
                        ex.best_win,
                        ex.win_idx,
                        ex.have_lose,
                        ex.best_lose,
                        ex.lose_idx,
                        is_ct,
                        use_win,
                        rank,
                        idx,
                    );
                }
                winner.insert(k, rank);
                let chosen = clone_state(&succs[idx]);
                let ghost chosen_g = chosen;
                strategy.insert(k, chosen);
                proof {
                    lemma_backprop_resolve(
                        pre_winner,
                        winner@,
                        seen,
                        pre_strategy,
                        strategy@,
                        finish_ranks,
                        k,
                        rank,
                        chosen_g,
                    );
                    lemma_snapshot_entries(pre_winner, winner@, seen, k, sm, rank, snap);
                    assert(succs@[idx as int]@ == spec_successors(sm)[idx as int]);
                    assert(strategy@[k]@ == spec_successors(seen[k])[idx as int]);
                    lemma_backprop_add(
                        winner@,
                        seen,
                        strategy@,
                        finish_ranks,
                        finish_ranks.insert(k, snap),
                        k,
                        snap,
                        idx as int,
                    );
                    finish_ranks = finish_ranks.insert(k, snap);
                    lemma_cover_after_pop(pre_stack, pre_winner, winner@);
                    assert(spec_successors(seen[k]).contains(succs@[idx as int]@));
                    lemma_after_finish(
                        pre_stack,
                        old_stack,
                        pre_winner,
                        winner@,
                        seen,
                        pre_strategy,
                        strategy@,
                        pre_fr,
                        finish_ranks,
                        k,
                        sm,
                        rank,
                        chosen_g,
                        snap,
                        init,
                    );
                    if k == key_of(init) {
                        lemma_key_injective(sm, init);
                    }
                }
            },
        }
    }
    proof {
        assert(winner@.contains_key(key_of(init)));
        lemma_final_tables(winner@, seen, strategy@, finish_ranks, stack@);
    }
    Solution { winner, strategy, states: Ghost(seen), finish_ranks: Ghost(finish_ranks) }
}

} // verus!
