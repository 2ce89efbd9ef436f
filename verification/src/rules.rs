//! Successor generation: the pure function from a position to the list of
//! every legally reachable next position, one case per phase.
//!
//! Because an uncommitted slot matches every role query, an action is
//! generated whenever the actor has not yet been proven *not* to hold the
//! required role; the graph explores every consistent hidden-identity
//! assignment implicitly through later commitments.

use vstd::prelude::*;

use crate::game::{
    all_alive, all_player_wf, canon_player, clone_state, player_wf, spec_alive, spec_canonize,
    spec_claim_card, spec_has_card, wf, Card, Move, Phase, Player, PlayerId, State, StateModel,
    ASSASSINATE_COST, COUP_COST, MAX_COINS,
};

verus! {

/// The executable successor vector realizes exactly the given model sequence.
pub open spec fn models_match(v: Seq<State>, m: Seq<StateModel>) -> bool {
    &&& v.len() == m.len()
    &&& forall|i: int| 0 <= i < v.len() ==> (#[trigger] v[i])@ == m[i]
}

pub open spec fn active_player(s: StateModel) -> Player {
    s.players[s.turn]
}

pub open spec fn with_phase(s: StateModel, ph: Phase) -> StateModel {
    StateModel { players: s.players, turn: s.turn, phase: ph }
}

pub open spec fn update_player(s: StateModel, i: int, p: Player, ph: Phase) -> StateModel {
    StateModel { players: s.players.update(i, p), turn: s.turn, phase: ph }
}

/// Coins added with the balance capped at `MAX_COINS`.
pub open spec fn cap_add(c: int, amt: int) -> int {
    if c + amt <= MAX_COINS { c + amt } else { MAX_COINS as int }
}

pub open spec fn spec_min(a: int, b: int) -> int {
    if a <= b { a } else { b }
}

// ---------------------------------------------------------------------------
// Move phase
// ---------------------------------------------------------------------------

/// Income: one coin, turn ends.
pub open spec fn income_succ(s: StateModel) -> StateModel {
    let p = active_player(s);
    update_player(
        s,
        s.turn,
        Player { id: p.id, card1: p.card1, card2: p.card2, coins: (p.coins + 1) as u8 },
        Phase::EndTurn,
    )
}

/// Foreign aid: nothing is granted yet; the action goes up for contest.
pub open spec fn foreign_aid_succ(s: StateModel) -> StateModel {
    with_phase(s, Phase::Challenge(Move::ForeignAid))
}

/// Coup against player `i`: seven coins paid, the target must lose influence.
pub open spec fn coup_succ(s: StateModel, i: int) -> StateModel {
    let p = active_player(s);
    update_player(
        s,
        s.turn,
        Player { id: p.id, card1: p.card1, card2: p.card2, coins: (p.coins - COUP_COST) as u8 },
        Phase::LoseInfluence(i as PlayerId),
    )
}

/// Tax: the actor commits to Duke and gains three coins, capped.
pub open spec fn tax_succ(s: StateModel) -> StateModel {
    let p = active_player(s);
    let q = spec_claim_card(p, Card::Duke);
    update_player(
        s,
        s.turn,
        Player { id: q.id, card1: q.card1, card2: q.card2, coins: cap_add(p.coins as int, 3) as u8 },
        Phase::EndTurn,
    )
}

/// Assassinate against player `i`: three coins paid, the actor commits to
/// Assassin, the action goes up for contest.
pub open spec fn assassinate_succ(s: StateModel, i: int) -> StateModel {
    let p = active_player(s);
    let q = spec_claim_card(p, Card::Assassin);
    update_player(
        s,
        s.turn,
        Player {
            id: q.id,
            card1: q.card1,
            card2: q.card2,
            coins: (p.coins - ASSASSINATE_COST) as u8,
        },
        Phase::Challenge(Move::Assassinate(i as PlayerId)),
    )
}

/// Steal from player `i`: the actor commits to Captain, the action goes up
/// for contest; no coins move yet.
pub open spec fn steal_succ(s: StateModel, i: int) -> StateModel {
    let p = active_player(s);
    update_player(
        s,
        s.turn,
        spec_claim_card(p, Card::Captain),
        Phase::Challenge(Move::Steal(i as PlayerId)),
    )
}

/// The coup branches against every other player with index below `n`.
pub open spec fn coup_seg(s: StateModel, n: int) -> Seq<StateModel>
    decreases n,
{
    if n <= 0 {
        Seq::empty()
    } else if n - 1 == s.turn {
        coup_seg(s, n - 1)
    } else {
        coup_seg(s, n - 1).push(coup_succ(s, n - 1))
    }
}

/// The assassinate branches against every other player with index below `n`.
pub open spec fn assassinate_seg(s: StateModel, n: int) -> Seq<StateModel>
    decreases n,
{
    if n <= 0 {
        Seq::empty()
    } else if n - 1 == s.turn {
        assassinate_seg(s, n - 1)
    } else {
        assassinate_seg(s, n - 1).push(assassinate_succ(s, n - 1))
    }
}

/// The steal branches against every other player with index below `n`.
pub open spec fn steal_seg(s: StateModel, n: int) -> Seq<StateModel>
    decreases n,
{
    if n <= 0 {
        Seq::empty()
    } else if n - 1 == s.turn {
        steal_seg(s, n - 1)
    } else {
        steal_seg(s, n - 1).push(steal_succ(s, n - 1))
    }
}

/// Every branch available to the active player in the `Move` phase, in the
/// fixed order income, foreign aid, coup, tax, assassinate, steal.
pub open spec fn spec_move_successors(s: StateModel) -> Seq<StateModel> {
    let p = active_player(s);
    let n = s.players.len() as int;
    (if p.coins < MAX_COINS { seq![income_succ(s)] } else { Seq::empty() })
    + (if p.coins < MAX_COINS { seq![foreign_aid_succ(s)] } else { Seq::empty() })
    + (if p.coins >= COUP_COST { coup_seg(s, n) } else { Seq::empty() })
    + (if spec_has_card(p, Card::Duke) { seq![tax_succ(s)] } else { Seq::empty() })
    + (if spec_has_card(p, Card::Assassin) && p.coins >= ASSASSINATE_COST {
        assassinate_seg(s, n)
    } else { Seq::empty() })
    + (if spec_has_card(p, Card::Captain) { steal_seg(s, n) } else { Seq::empty() })
}

// ---------------------------------------------------------------------------
// Challenge phase
// ---------------------------------------------------------------------------

/// Player `i` blocks the pending action by committing to `c`; the whole move
/// is negated and the turn ends.
pub open spec fn block_succ(s: StateModel, i: int, c: Card) -> StateModel {
    update_player(s, i, spec_claim_card(s.players[i], c), Phase::EndTurn)
}

/// The blocking branches player `i` can produce against the pending move:
/// Duke blocks foreign aid, Contessa blocks assassination, Captain or
/// Ambassador block stealing.
pub open spec fn blocks_for(s: StateModel, i: int, m: Move) -> Seq<StateModel> {
    match m {
        Move::ForeignAid => if spec_has_card(s.players[i], Card::Duke) {
            seq![block_succ(s, i, Card::Duke)]
        } else {
            Seq::empty()
        },
        Move::Assassinate(_) => if spec_has_card(s.players[i], Card::Contessa) {
            seq![block_succ(s, i, Card::Contessa)]
        } else {
            Seq::empty()
        },
        Move::Steal(_) => (
            if spec_has_card(s.players[i], Card::Captain) {
                seq![block_succ(s, i, Card::Captain)]
            } else {
                Seq::empty()
            })
            + (if spec_has_card(s.players[i], Card::Ambassador) {
                seq![block_succ(s, i, Card::Ambassador)]
            } else {
                Seq::empty()
            }),
        _ => Seq::empty(),
    }
}

/// All blocking branches of every non-acting player with index below `n`.
pub open spec fn block_seg(s: StateModel, m: Move, n: int) -> Seq<StateModel>
    decreases n,
{
    if n <= 0 {
        Seq::empty()
    } else if n - 1 == s.turn {
        block_seg(s, m, n - 1)
    } else {
        block_seg(s, m, n - 1) + blocks_for(s, n - 1, m)
    }
}

/// The amount a steal transfers: two coins, limited by what the target has
/// and by how far the actor is from the cap.
pub open spec fn steal_amount(s: StateModel, t: int) -> int {
    spec_min(2, spec_min(MAX_COINS - active_player(s).coins, s.players[t].coins as int))
}

/// The branch in which nobody blocks: the pending move resolves.
pub open spec fn unopposed_succ(s: StateModel, m: Move) -> StateModel {
    match m {
        Move::ForeignAid => {
            let p = active_player(s);
            update_player(
                s,
                s.turn,
                Player {
                    id: p.id,
                    card1: p.card1,
                    card2: p.card2,
                    coins: cap_add(p.coins as int, 2) as u8,
                },
                Phase::EndTurn,
            )
        },
        Move::Assassinate(t) => with_phase(s, Phase::LoseInfluence(t)),
        Move::Steal(t) => {
            let p = active_player(s);
            let tp = s.players[t as int];
            let amt = steal_amount(s, t as int);
            StateModel {
                players: s.players.update(
                    s.turn,
                    Player {
                        id: p.id,
                        card1: p.card1,
                        card2: p.card2,
                        coins: (p.coins + amt) as u8,
                    },
                ).update(
                    t as int,
                    Player {
                        id: tp.id,
                        card1: tp.card1,
                        card2: tp.card2,
                        coins: (tp.coins - amt) as u8,
                    },
                ),
                turn: s.turn,
                phase: Phase::EndTurn,
            }
        },
        _ => s,
    }
}

/// Every branch of a `Challenge` phase: each possible block, then the one
/// unopposed branch.
pub open spec fn spec_challenge_successors(s: StateModel, m: Move) -> Seq<StateModel> {
    block_seg(s, m, s.players.len() as int) + seq![unopposed_succ(s, m)]
}

// ---------------------------------------------------------------------------
// LoseInfluence phase
// ---------------------------------------------------------------------------

/// The target's first slot becomes `Dead`.
pub open spec fn lose_first_succ(s: StateModel, t: int) -> StateModel {
    let p = s.players[t];
    update_player(
        s,
        t,
        Player { id: p.id, card1: Card::Dead, card2: p.card2, coins: p.coins },
        Phase::EndTurn,
    )
}

/// The target's second slot becomes `Dead`.
pub open spec fn lose_second_succ(s: StateModel, t: int) -> StateModel {
    let p = s.players[t];
    update_player(
        s,
        t,
        Player { id: p.id, card1: p.card1, card2: Card::Dead, coins: p.coins },
        Phase::EndTurn,
    )
}

/// One branch per still-living slot of the target.
pub open spec fn spec_lose_influence_successors(s: StateModel, t: int) -> Seq<StateModel> {
    (if s.players[t].card1 != Card::Dead { seq![lose_first_succ(s, t)] } else { Seq::empty() })
    + (if s.players[t].card2 != Card::Dead { seq![lose_second_succ(s, t)] } else { Seq::empty() })
}

// ---------------------------------------------------------------------------
// EndTurn phase
// ---------------------------------------------------------------------------

/// The players that survive the end-of-turn purge: those with influence left,
/// in unchanged order.
pub open spec fn purge(ps: Seq<Player>) -> Seq<Player>
    decreases ps.len(),
{
    if ps.len() == 0 {
        Seq::empty()
    } else {
        purge(ps.drop_last()) + (if spec_alive(ps.last()) { seq![ps.last()] } else { Seq::empty() })
    }
}

/// The single end-of-turn branch: purge eliminated players, advance the turn
/// one position modulo the new player count, normalize card slots.
pub open spec fn end_turn_succ(s: StateModel) -> StateModel {
    let kept = purge(s.players);
    spec_canonize(StateModel { players: kept, turn: (s.turn + 1) % kept.len() as int, phase: Phase::Move })
}

/// The successor relation itself, dispatched on the phase: exactly one of the
/// four phase generators applies to any state.
pub open spec fn spec_successors(s: StateModel) -> Seq<StateModel> {
    match s.phase {
        Phase::Move => spec_move_successors(s),
        Phase::Challenge(m) => spec_challenge_successors(s, m),
        Phase::LoseInfluence(t) => spec_lose_influence_successors(s, t as int),
        Phase::EndTurn => seq![end_turn_succ(s)],
    }
}

// ---------------------------------------------------------------------------
// Executable generators
// ---------------------------------------------------------------------------

/// A copy of the player vector with entry `i` replaced by `p`.
fn set_player(ps: &Vec<Player>, i: usize, p: Player) -> (r: Vec<Player>)
    requires
        i < ps@.len(),
    ensures
        r@ == ps@.update(i as int, p),
{
    let mut out: Vec<Player> = Vec::new();
    let n = ps.len();
    for j in 0..n
        invariant
            n == ps@.len(),
            i < n,
            out@.len() == j,
            forall|k: int| 0 <= k < j && k != i ==> out@[k] == ps@[k],
            forall|k: int| 0 <= k < j && k == i ==> out@[k] == p,
    {
        if j == i {
            out.push(p);
        } else {
            out.push(ps[j]);
        }
    }
    proof {
        assert(out@ =~= ps@.update(i as int, p));
    }
    out
}

/// Appends one coup branch per other living player.
#[verifier::loop_isolation(false)]
fn push_coup_branches(state: &State, out: &mut Vec<State>)
    requires
        wf(state@),
        state@.phase == Phase::Move,
        active_player(state@).coins >= COUP_COST,
    ensures
        final(out)@.len() == old(out)@.len() + coup_seg(state@, state@.players.len() as int).len(),
        forall|i: int| 0 <= i < old(out)@.len() ==> final(out)@[i] == old(out)@[i],
        forall|i: int|
            0 <= i < coup_seg(state@, state@.players.len() as int).len()
                ==> (#[trigger] final(out)@[old(out)@.len() + i])@
                == coup_seg(state@, state@.players.len() as int)[i],
{
    let ghost s = state@;
    let ghost base = out@.len() as int;
    let t = state.turn as usize;
    let n = state.players.len();
    let player = state.players[t];
    for i in 0..n
        invariant
            out@.len() == base + coup_seg(s, i as int).len(),
            forall|k: int| 0 <= k < base ==> out@[k] == old(out)@[k],
            forall|k: int|
                0 <= k < coup_seg(s, i as int).len() ==> (#[trigger] out@[base + k])@ == coup_seg(
                    s,
                    i as int,
                )[k],
    {
        if i != t {
            let q = Player {
                id: player.id,
                card1: player.card1,
                card2: player.card2,
                coins: player.coins - COUP_COST,
            };
            let np = set_player(&state.players, t, q);
            out.push(State { players: np, turn: state.turn, phase: Phase::LoseInfluence(i as PlayerId) });
            proof {
                assert(out@.last()@ =~= coup_succ(s, i as int));
            }
        }
    }
}

/// Appends one assassinate branch per other living player.
#[verifier::loop_isolation(false)]
fn push_assassinate_branches(state: &State, out: &mut Vec<State>)
    requires
        wf(state@),
        state@.phase == Phase::Move,
        spec_has_card(active_player(state@), Card::Assassin),
        active_player(state@).coins >= ASSASSINATE_COST,
    ensures
        final(out)@.len() == old(out)@.len() + assassinate_seg(
            state@,
            state@.players.len() as int,
        ).len(),
        forall|i: int| 0 <= i < old(out)@.len() ==> final(out)@[i] == old(out)@[i],
        forall|i: int|
            0 <= i < assassinate_seg(state@, state@.players.len() as int).len()
                ==> (#[trigger] final(out)@[old(out)@.len() + i])@
                == assassinate_seg(state@, state@.players.len() as int)[i],
{
    let ghost s = state@;
    let ghost base = out@.len() as int;
    let t = state.turn as usize;
    let n = state.players.len();
    let player = state.players[t];
    for i in 0..n
        invariant
            out@.len() == base + assassinate_seg(s, i as int).len(),
            forall|k: int| 0 <= k < base ==> out@[k] == old(out)@[k],
            forall|k: int|
                0 <= k < assassinate_seg(s, i as int).len() ==> (#[trigger] out@[base + k])@
                    == assassinate_seg(s, i as int)[k],
    {
        if i != t {
            let mut q = player;
            q.claim_card(Card::Assassin);
            let q2 = Player {
                id: q.id,
                card1: q.card1,
                card2: q.card2,
                coins: player.coins - ASSASSINATE_COST,
            };
            let np = set_player(&state.players, t, q2);
            out.push(State {
                players: np,
                turn: state.turn,
                phase: Phase::Challenge(Move::Assassinate(i as PlayerId)),
            });
            proof {
                assert(out@.last()@ =~= assassinate_succ(s, i as int));
            }
        }
    }
}

/// Appends one steal branch per other living player.
#[verifier::loop_isolation(false)]
fn push_steal_branches(state: &State, out: &mut Vec<State>)
    requires
        wf(state@),
        state@.phase == Phase::Move,
        spec_has_card(active_player(state@), Card::Captain),
    ensures
        final(out)@.len() == old(out)@.len() + steal_seg(state@, state@.players.len() as int).len(),
        forall|i: int| 0 <= i < old(out)@.len() ==> final(out)@[i] == old(out)@[i],
        forall|i: int|
            0 <= i < steal_seg(state@, state@.players.len() as int).len()
                ==> (#[trigger] final(out)@[old(out)@.len() + i])@
                == steal_seg(state@, state@.players.len() as int)[i],
{
    let ghost s = state@;
    let ghost base = out@.len() as int;
    let t = state.turn as usize;
    let n = state.players.len();
    let player = state.players[t];
    for i in 0..n
        invariant
            out@.len() == base + steal_seg(s, i as int).len(),
            forall|k: int| 0 <= k < base ==> out@[k] == old(out)@[k],
            forall|k: int|
                0 <= k < steal_seg(s, i as int).len() ==> (#[trigger] out@[base + k])@ == steal_seg(
                    s,
                    i as int,
                )[k],
    {
        if i != t {
            let mut q = player;
            q.claim_card(Card::Captain);
            let np = set_player(&state.players, t, q);
            out.push(State {
                players: np,
                turn: state.turn,
                phase: Phase::Challenge(Move::Steal(i as PlayerId)),
            });
            proof {
                assert(out@.last()@ =~= steal_succ(s, i as int));
            }
        }
    }
}

/// Branches of the `Move` phase, in the fixed order income, foreign aid,
/// coup, tax, assassinate, steal; an action appears whenever its coin and
/// card requirements are met, with one branch per possible target.
#[verifier::loop_isolation(false)]
pub fn move_successors(state: &State) -> (r: Vec<State>)
    requires
        wf(state@),
        state@.phase == Phase::Move,
    ensures
        models_match(r@, spec_move_successors(state@)),
{
    let ghost s = state@;
    let t = state.turn as usize;
    let n = state.players.len();
    let player = state.players[t];

    let mut out: Vec<State> = Vec::new();

    // Income
    if player.coins < MAX_COINS {
        let q = Player { id: player.id, card1: player.card1, card2: player.card2, coins: player.coins + 1 };
        let np = set_player(&state.players, t, q);
        out.push(State { players: np, turn: state.turn, phase: Phase::EndTurn });
        proof {
            assert(out@[0]@ =~= income_succ(s));
        }
    }
    let ghost seg1 = if player.coins < MAX_COINS { seq![income_succ(s)] } else { Seq::<StateModel>::empty() };
    assert(models_match(out@, seg1));

    // Foreign aid
    if player.coins < MAX_COINS {
        let mut ns = clone_state(state);
        ns.phase = Phase::Challenge(Move::ForeignAid);
        out.push(ns);
        proof {
            assert(out@.last()@ =~= foreign_aid_succ(s));
        }
    }
    let ghost seg2 = seg1 + if player.coins < MAX_COINS { seq![foreign_aid_succ(s)] } else { Seq::<StateModel>::empty() };
    assert(models_match(out@, seg2));

    // Coup
    if player.coins >= COUP_COST {
        push_coup_branches(state, &mut out);
        proof {
            let seg = coup_seg(s, n as int);
            assert forall|i: int| 0 <= i < out@.len() implies (#[trigger] out@[i])@ == (seg2
                + seg)[i] by {
                if i >= seg2.len() {
                    assert(out@[seg2.len() + (i - seg2.len())]@ == seg[i - seg2.len()]);
                }
            }
        }
    }
    let ghost seg3 = seg2 + if player.coins >= COUP_COST { coup_seg(s, n as int) } else { Seq::<StateModel>::empty() };
    assert(models_match(out@, seg3));

    // Tax
    if player.has_card(&Card::Duke) {
        let newc = if player.coins + 3 <= MAX_COINS { player.coins + 3 } else { MAX_COINS };
        let mut q = player;
        q.claim_card(Card::Duke);
        let q2 = Player { id: q.id, card1: q.card1, card2: q.card2, coins: newc };
        let np = set_player(&state.players, t, q2);
        out.push(State { players: np, turn: state.turn, phase: Phase::EndTurn });
        proof {
            assert(out@.last()@ =~= tax_succ(s));
        }
    }
    let ghost seg4 = seg3 + if spec_has_card(active_player(s), Card::Duke) { seq![tax_succ(s)] } else { Seq::<StateModel>::empty() };
    assert(models_match(out@, seg4));

    // Assassinate
    if player.has_card(&Card::Assassin) && player.coins >= ASSASSINATE_COST {
        push_assassinate_branches(state, &mut out);
        proof {
            let seg = assassinate_seg(s, n as int);
            assert forall|i: int| 0 <= i < out@.len() implies (#[trigger] out@[i])@ == (seg4
                + seg)[i] by {
                if i >= seg4.len() {
                    assert(out@[seg4.len() + (i - seg4.len())]@ == seg[i - seg4.len()]);
                }
            }
        }
    }
    let ghost seg5 = seg4 + if spec_has_card(active_player(s), Card::Assassin)
        && active_player(s).coins >= ASSASSINATE_COST {
        assassinate_seg(s, n as int)
    } else { Seq::<StateModel>::empty() };
    assert(models_match(out@, seg5));

    // Steal
    if player.has_card(&Card::Captain) {
        push_steal_branches(state, &mut out);
        proof {
            let seg = steal_seg(s, n as int);
            assert forall|i: int| 0 <= i < out@.len() implies (#[trigger] out@[i])@ == (seg5
                + seg)[i] by {
                if i >= seg5.len() {
                    assert(out@[seg5.len() + (i - seg5.len())]@ == seg[i - seg5.len()]);
                }
            }
        }
    }
    let ghost seg6 = seg5 + if spec_has_card(active_player(s), Card::Captain) { steal_seg(s, n as int) } else { Seq::<StateModel>::empty() };
    assert(models_match(out@, seg6));
    assert(seg6 =~= spec_move_successors(s));

    out
}

/// Branches of a `Challenge` phase: every block each non-acting player can
/// produce, then the single unopposed branch in which the move resolves.
#[verifier::loop_isolation(false)]
pub fn challenge_successors(state: &State) -> (r: Vec<State>)
    requires
        wf(state@),
        state@.phase is Challenge,
    ensures
        models_match(r@, spec_successors(state@)),
{
    let ghost s = state@;
    let t = state.turn as usize;
    let n = state.players.len();

    match state.phase {
        Phase::Challenge(the_move) => {
            let ghost m = the_move;
            let mut out: Vec<State> = Vec::new();

            // One player blocks
            for i in 0..n
                invariant
                    models_match(out@, block_seg(s, m, i as int)),
            {
                if i != t {
                    match the_move {
                        Move::ForeignAid => {
                            if state.players[i].has_card(&Card::Duke) {
                                let mut q = state.players[i];
                                q.claim_card(Card::Duke);
                                let np = set_player(&state.players, i, q);
                                out.push(State { players: np, turn: state.turn, phase: Phase::EndTurn });
                                proof {
                                    assert(out@.last()@ =~= block_succ(s, i as int, Card::Duke));
                                }
                            }
                        },
                        Move::Assassinate(_) => {
                            if state.players[i].has_card(&Card::Contessa) {
                                let mut q = state.players[i];
                                q.claim_card(Card::Contessa);
                                let np = set_player(&state.players, i, q);
                                out.push(State { players: np, turn: state.turn, phase: Phase::EndTurn });
                                proof {
                                    assert(out@.last()@ =~= block_succ(s, i as int, Card::Contessa));
                                }
                            }
                        },
                        Move::Steal(_) => {
                            if state.players[i].has_card(&Card::Captain) {
                                let mut q = state.players[i];
                                q.claim_card(Card::Captain);
                                let np = set_player(&state.players, i, q);
                                out.push(State { players: np, turn: state.turn, phase: Phase::EndTurn });
                                proof {
                                    assert(out@.last()@ =~= block_succ(s, i as int, Card::Captain));
                                }
                            }
                            if state.players[i].has_card(&Card::Ambassador) {
                                let mut q = state.players[i];
                                q.claim_card(Card::Ambassador);
                                let np = set_player(&state.players, i, q);
                                out.push(State { players: np, turn: state.turn, phase: Phase::EndTurn });
                                proof {
                                    assert(out@.last()@ =~= block_succ(s, i as int, Card::Ambassador));
                                }
                            }
                        },
                        _ => {
                            proof {
                                assert(false);
                            }
                        },
                    }
                }
            }

            // No one blocks: the move resolves
            match the_move {
                Move::ForeignAid => {
                    let player = state.players[t];
                    let newc = if player.coins + 2 <= MAX_COINS { player.coins + 2 } else { MAX_COINS };
                    let q = Player { id: player.id, card1: player.card1, card2: player.card2, coins: newc };
                    let np = set_player(&state.players, t, q);
                    out.push(State { players: np, turn: state.turn, phase: Phase::EndTurn });
                    proof {
                        assert(out@.last()@ =~= unopposed_succ(s, m));
                    }
                },
                Move::Assassinate(target) => {
                    let mut ns = clone_state(state);
                    ns.phase = Phase::LoseInfluence(target);
                    out.push(ns);
                    proof {
                        assert(out@.last()@ =~= unopposed_succ(s, m));
                    }
                },
                Move::Steal(target) => {
                    let tu = target as usize;
                    let player = state.players[t];
                    let tp = state.players[tu];
                    let room = MAX_COINS - player.coins;
                    let m1 = if room <= tp.coins { room } else { tp.coins };
                    let amount = if 2 <= m1 { 2 } else { m1 };
                    let q = Player {
                        id: player.id,
                        card1: player.card1,
                        card2: player.card2,
                        coins: player.coins + amount,
                    };
                    let q2 = Player {
                        id: tp.id,
                        card1: tp.card1,
                        card2: tp.card2,
                        coins: tp.coins - amount,
                    };
                    let np1 = set_player(&state.players, t, q);
                    let np2 = set_player(&np1, tu, q2);
                    out.push(State { players: np2, turn: state.turn, phase: Phase::EndTurn });
                    proof {
                        assert(out@.last()@ =~= unopposed_succ(s, m));
                    }
                },
                _ => {
                    proof {
                        assert(false);
                    }
                },
            }

            proof {
                assert(out@.len() == spec_challenge_successors(s, m).len());
            }
            out
        },
        _ => {
            proof {
                assert(false);
            }
            Vec::new()
        },
    }
}

/// Branches of a `LoseInfluence` phase: one per still-living slot of the
/// target, each making that slot `Dead`.
#[verifier::loop_isolation(false)]
pub fn lose_influence_successors(state: &State) -> (r: Vec<State>)
    requires
        wf(state@),
        state@.phase is LoseInfluence,
    ensures
        models_match(r@, spec_successors(state@)),
{
    let ghost s = state@;
    match state.phase {
        Phase::LoseInfluence(target) => {
            let tu = target as usize;
            let mut out: Vec<State> = Vec::new();
            let p = state.players[tu];
            if !(p.card1 == Card::Dead) {
                let q = Player { id: p.id, card1: Card::Dead, card2: p.card2, coins: p.coins };
                let np = set_player(&state.players, tu, q);
                out.push(State { players: np, turn: state.turn, phase: Phase::EndTurn });
                proof {
                    assert(out@.last()@ =~= lose_first_succ(s, tu as int));
                }
            }
            if !(p.card2 == Card::Dead) {
                let q = Player { id: p.id, card1: p.card1, card2: Card::Dead, coins: p.coins };
                let np = set_player(&state.players, tu, q);
                out.push(State { players: np, turn: state.turn, phase: Phase::EndTurn });
                proof {
                    assert(out@.last()@ =~= lose_second_succ(s, tu as int));
                }
            }
            out
        },
        _ => {
            proof {
                assert(false);
            }
            Vec::new()
        },
    }
}

/// The single end-of-turn branch: every player whose both slots are `Dead`
/// is removed, the turn advances one position modulo the new player count,
/// and card slots are normalized.
#[verifier::loop_isolation(false)]
fn end_turn_successor(state: &State) -> (r: State)
    requires
        wf(state@),
        state@.phase == Phase::EndTurn,
    ensures
        r@ == end_turn_succ(state@),
{
    let ghost s = state@;
    let n = state.players.len();
    let mut kept: Vec<Player> = Vec::new();
    for i in 0..n
        invariant
            kept@ == purge(s.players.take(i as int)),
    {
        proof {
            assert(s.players.take(i + 1).drop_last() =~= s.players.take(i as int));
            assert(s.players.take(i + 1).last() == s.players[i as int]);
        }
        if state.players[i].is_alive() {
            kept.push(state.players[i]);
        }
    }
    proof {
        assert(s.players.take(n as int) =~= s.players);
        lemma_purge_props(s.players);
        assert(spec_alive(s.players[s.turn]));
        assert(purge(s.players).len() >= 1);
    }
    let new_len = kept.len() as u8;
    let new_turn = (state.turn + 1) % new_len;
    let mid = State { players: kept, turn: new_turn, phase: Phase::Move };
    let r = mid.canonize();
    proof {
        assert(mid@ =~= StateModel {
            players: purge(s.players),
            turn: (s.turn + 1) % purge(s.players).len() as int,
            phase: Phase::Move,
        });
    }
    r
}

/// Everything that holds of the purge of a player sequence: it keeps order
/// and players, never grows, keeps only and all the living players, and is
/// the identity exactly when everybody is alive.
pub proof fn lemma_purge_props(ps: Seq<Player>)
    ensures
        purge(ps).len() <= ps.len(),
        all_alive(purge(ps)),
        forall|j: int| 0 <= j < purge(ps).len() ==> ps.contains(#[trigger] purge(ps)[j]),
        (forall|i: int| 0 <= i < ps.len() ==> spec_alive(#[trigger] ps[i])) ==> purge(ps) =~= ps,
        (exists|i: int| 0 <= i < ps.len() && spec_alive(#[trigger] ps[i])) ==> purge(ps).len() >= 1,
        purge(ps).len() < ps.len() ==> (exists|i: int|
            0 <= i < ps.len() && !spec_alive(#[trigger] ps[i])),
    decreases ps.len(),
{
    if ps.len() == 0 {
    } else {
        let dl = ps.drop_last();
        lemma_purge_props(dl);
        assert(forall|j: int| 0 <= j < dl.len() ==> dl[j] == ps[j]);
        assert forall|j: int| 0 <= j < purge(ps).len() implies ps.contains(#[trigger] purge(ps)[j]) by {
            if j < purge(dl).len() {
                assert(dl.contains(purge(dl)[j]));
                let w = choose|w: int| 0 <= w < dl.len() && dl[w] == purge(dl)[j];
                assert(ps[w] == purge(ps)[j]);
            } else {
                assert(purge(ps)[j] == ps.last());
                assert(ps[ps.len() - 1] == ps.last());
            }
        }
        if forall|i: int| 0 <= i < ps.len() ==> spec_alive(#[trigger] ps[i]) {
            assert(purge(dl) =~= dl);
            assert(spec_alive(ps.last()));
            assert(purge(ps) =~= ps);
        }
        if exists|i: int| 0 <= i < ps.len() && spec_alive(#[trigger] ps[i]) {
            let w = choose|w: int| 0 <= w < ps.len() && spec_alive(ps[w]);
            if w < dl.len() {
                assert(dl[w] == ps[w]);
                assert(purge(dl).len() >= 1);
            } else {
                assert(spec_alive(ps.last()));
            }
        }
    }
}

// ---------------------------------------------------------------------------
// Laws of the successor relation
// ---------------------------------------------------------------------------

/// Replacing one player leaves the roster length, everyone's
/// well-formedness, and (when the replacement is alive) everyone's liveness
/// intact.
proof fn lemma_update_keeps(ps: Seq<Player>, i: int, q: Player)
    requires
        0 <= i < ps.len(),
        all_player_wf(ps),
        player_wf(q),
    ensures
        ps.update(i, q).len() == ps.len(),
        all_player_wf(ps.update(i, q)),
        all_alive(ps) && spec_alive(q) ==> all_alive(ps.update(i, q)),
{
    let u = ps.update(i, q);
    assert forall|k: int| 0 <= k < u.len() implies player_wf(#[trigger] u[k]) by {
        if k != i {
            assert(u[k] == ps[k]);
        }
    }
    if all_alive(ps) && spec_alive(q) {
        assert forall|k: int| 0 <= k < u.len() implies spec_alive(#[trigger] u[k]) by {
            if k != i {
                assert(u[k] == ps[k]);
            }
        }
    }
}

/// Committing a role other than `Dead` keeps a player's identity, coins and
/// liveness.
proof fn lemma_claim_keeps(p: Player, c: Card)
    requires
        c != Card::Dead,
    ensures
        spec_claim_card(p, c).id == p.id,
        spec_claim_card(p, c).coins == p.coins,
        spec_alive(p) ==> spec_alive(spec_claim_card(p, c)),
{
}

/// Every element of the coup segment is a coup against some valid target,
/// and is well-formed.
proof fn lemma_coup_seg_wf(s: StateModel, n: int)
    requires
        wf(s),
        s.phase == Phase::Move,
        active_player(s).coins >= COUP_COST,
        0 <= n <= s.players.len(),
    ensures
        forall|j: int|
            0 <= j < coup_seg(s, n).len() ==> wf(#[trigger] coup_seg(s, n)[j]) && coup_seg(
                s,
                n,
            )[j].players.len() == s.players.len(),
    decreases n,
{
    if n > 0 {
        lemma_coup_seg_wf(s, n - 1);
        if n - 1 != s.turn {
            let p = active_player(s);
            let q = Player {
                id: p.id,
                card1: p.card1,
                card2: p.card2,
                coins: (p.coins - COUP_COST) as u8,
            };
            lemma_update_keeps(s.players, s.turn, q);
            assert(wf(coup_succ(s, n - 1)));
        }
    }
}

/// Every element of the assassinate segment is well-formed.
proof fn lemma_assassinate_seg_wf(s: StateModel, n: int)
    requires
        wf(s),
        s.phase == Phase::Move,
        spec_has_card(active_player(s), Card::Assassin),
        active_player(s).coins >= ASSASSINATE_COST,
        0 <= n <= s.players.len(),
    ensures
        forall|j: int|
            0 <= j < assassinate_seg(s, n).len() ==> wf(#[trigger] assassinate_seg(s, n)[j])
                && assassinate_seg(s, n)[j].players.len() == s.players.len(),
    decreases n,
{
    if n > 0 {
        lemma_assassinate_seg_wf(s, n - 1);
        if n - 1 != s.turn {
            let p = active_player(s);
            let q = spec_claim_card(p, Card::Assassin);
            lemma_claim_keeps(p, Card::Assassin);
            let q2 = Player {
                id: q.id,
                card1: q.card1,
                card2: q.card2,
                coins: (p.coins - ASSASSINATE_COST) as u8,
            };
            lemma_update_keeps(s.players, s.turn, q2);
            assert(wf(assassinate_succ(s, n - 1)));
        }
    }
}

/// Every element of the steal segment is well-formed.
proof fn lemma_steal_seg_wf(s: StateModel, n: int)
    requires
        wf(s),
        s.phase == Phase::Move,
        spec_has_card(active_player(s), Card::Captain),
        0 <= n <= s.players.len(),
    ensures
        forall|j: int|
            0 <= j < steal_seg(s, n).len() ==> wf(#[trigger] steal_seg(s, n)[j]) && steal_seg(
                s,
                n,
            )[j].players.len() == s.players.len(),
    decreases n,
{
    if n > 0 {
        lemma_steal_seg_wf(s, n - 1);
        if n - 1 != s.turn {
            let p = active_player(s);
            lemma_claim_keeps(p, Card::Captain);
            lemma_update_keeps(s.players, s.turn, spec_claim_card(p, Card::Captain));
            assert(wf(steal_succ(s, n - 1)));
        }
    }
}

/// A block by player `i` committing to role `c` yields a well-formed state.
proof fn lemma_block_succ_wf(s: StateModel, i: int, c: Card)
    requires
        wf(s),
        s.phase is Challenge,
        0 <= i < s.players.len(),
        c != Card::Dead,
    ensures
        wf(block_succ(s, i, c)),
        block_succ(s, i, c).players.len() == s.players.len(),
{
    lemma_claim_keeps(s.players[i], c);
    lemma_update_keeps(s.players, i, spec_claim_card(s.players[i], c));
}

/// Every element of the block segment is well-formed.
proof fn lemma_block_seg_wf(s: StateModel, m: Move, n: int)
    requires
        wf(s),
        s.phase == Phase::Challenge(m),
        0 <= n <= s.players.len(),
    ensures
        forall|j: int|
            0 <= j < block_seg(s, m, n).len() ==> wf(#[trigger] block_seg(s, m, n)[j]) && block_seg(
                s,
                m,
                n,
            )[j].players.len() == s.players.len(),
    decreases n,
{
    if n > 0 {
        lemma_block_seg_wf(s, m, n - 1);
        if n - 1 != s.turn {
            match m {
                Move::ForeignAid => {
                    lemma_block_succ_wf(s, n - 1, Card::Duke);
                },
                Move::Assassinate(_) => {
                    lemma_block_succ_wf(s, n - 1, Card::Contessa);
                },
                Move::Steal(_) => {
                    lemma_block_succ_wf(s, n - 1, Card::Captain);
                    lemma_block_succ_wf(s, n - 1, Card::Ambassador);
                },
                _ => {},
            }
        }
    }
}

/// The unopposed resolution of a well-formed challenge is well-formed.
proof fn lemma_unopposed_wf(s: StateModel, m: Move)
    requires
        wf(s),
        s.phase == Phase::Challenge(m),
    ensures
        wf(unopposed_succ(s, m)),
        unopposed_succ(s, m).players.len() == s.players.len(),
{
    let p = active_player(s);
    match m {
        Move::ForeignAid => {
            let q = Player {
                id: p.id,
                card1: p.card1,
                card2: p.card2,
                coins: cap_add(p.coins as int, 2) as u8,
            };
            lemma_update_keeps(s.players, s.turn, q);
        },
        Move::Assassinate(_) => {},
        Move::Steal(t) => {
            let tp = s.players[t as int];
            let amt = steal_amount(s, t as int);
            let q = Player { id: p.id, card1: p.card1, card2: p.card2, coins: (p.coins + amt) as u8 };
            let q2 = Player {
                id: tp.id,
                card1: tp.card1,
                card2: tp.card2,
                coins: (tp.coins - amt) as u8,
            };
            lemma_update_keeps(s.players, s.turn, q);
            lemma_update_keeps(s.players.update(s.turn, q), t as int, q2);
            assert(s.players.update(s.turn, q).update(t as int, q2)[s.turn] == q);
        },
        _ => {},
    }
}

/// Both forced-reveal branches are well-formed.
proof fn lemma_lose_wf(s: StateModel, t: int)
    requires
        wf(s),
        s.phase == Phase::LoseInfluence(t as PlayerId),
        t == s.phase->LoseInfluence_0 as int,
    ensures
        s.players[t].card1 != Card::Dead ==> wf(lose_first_succ(s, t)) && lose_first_succ(
            s,
            t,
        ).players.len() == s.players.len(),
        s.players[t].card2 != Card::Dead ==> wf(lose_second_succ(s, t)) && lose_second_succ(
            s,
            t,
        ).players.len() == s.players.len(),
{
    let p = s.players[t];
    if p.card1 != Card::Dead {
        let q = Player { id: p.id, card1: Card::Dead, card2: p.card2, coins: p.coins };
        lemma_update_keeps(s.players, t, q);
        assert(lose_first_succ(s, t).players[s.turn] == s.players[s.turn]);
    }
    if p.card2 != Card::Dead {
        let q = Player { id: p.id, card1: p.card1, card2: Card::Dead, coins: p.coins };
        lemma_update_keeps(s.players, t, q);
        assert(lose_second_succ(s, t).players[s.turn] == s.players[s.turn]);
    }
}

/// The end-of-turn branch is well-formed.
proof fn lemma_end_turn_wf(s: StateModel)
    requires
        wf(s),
        s.phase == Phase::EndTurn,
    ensures
        wf(end_turn_succ(s)),
        end_turn_succ(s).players.len() <= s.players.len(),
        end_turn_succ(s).players.len() < s.players.len() ==> exists|i: int|
            0 <= i < s.players.len() && !spec_alive(#[trigger] s.players[i]),
{
    lemma_purge_props(s.players);
    let kept = purge(s.players);
    assert(spec_alive(s.players[s.turn]));
    assert(kept.len() >= 1);
    assert forall|k: int| 0 <= k < kept.len() implies player_wf(#[trigger] kept[k]) by {
        assert(s.players.contains(kept[k]));
        let w = choose|w: int| 0 <= w < s.players.len() && s.players[w] == kept[k];
        assert(player_wf(s.players[w]));
    }
    let nt = (s.turn + 1) % kept.len() as int;
    if kept.len() == 1 {
        assert(nt == 0);
    } else {
        assert(0 <= nt < kept.len());
    }
    let mid = StateModel { players: kept, turn: nt, phase: Phase::Move };
    let c = spec_canonize(mid);
    assert(c.players.len() == kept.len());
    assert forall|k: int| 0 <= k < c.players.len() implies player_wf(#[trigger] c.players[k])
        && spec_alive(c.players[k]) by {
        assert(c.players[k] == canon_player(kept[k]));
        assert(player_wf(kept[k]));
        assert(spec_alive(kept[k]));
    }
    assert(wf(c));
}

/// Invariant preservation: every successor of a well-formed state is
/// well-formed. In particular every reachable state keeps the bounds wf
/// states: at most two players, a valid turn index, and valid phase targets.
pub proof fn lemma_successors_wf(s: StateModel)
    requires
        wf(s),
    ensures
        forall|j: int| 0 <= j < spec_successors(s).len() ==> wf(#[trigger] spec_successors(s)[j]),
{
    lemma_successors_shape(s);
}

/// The combined shape facts behind the public laws: well-formedness of every
/// successor, and how the roster length can change.
proof fn lemma_successors_shape(s: StateModel)
    requires
        wf(s),
    ensures
        forall|j: int| 0 <= j < spec_successors(s).len() ==> wf(#[trigger] spec_successors(s)[j]),
        forall|j: int|
            0 <= j < spec_successors(s).len() ==> (#[trigger] spec_successors(s)[j]).players.len()
                <= s.players.len(),
        forall|j: int|
            0 <= j < spec_successors(s).len() ==> ((#[trigger] spec_successors(s)[j]).players.len()
                < s.players.len() ==> s.phase == Phase::EndTurn && exists|i: int|
                0 <= i < s.players.len() && !spec_alive(#[trigger] s.players[i])),
{
    let n = s.players.len() as int;
    match s.phase {
        Phase::Move => {
            let p = active_player(s);
            if p.coins < MAX_COINS {
                lemma_update_keeps(
                    s.players,
                    s.turn,
                    Player { id: p.id, card1: p.card1, card2: p.card2, coins: (p.coins + 1) as u8 },
                );
                assert(wf(income_succ(s)));
                assert(wf(foreign_aid_succ(s)));
            }
            if p.coins >= COUP_COST {
                lemma_coup_seg_wf(s, n);
            }
            if spec_has_card(p, Card::Duke) {
                let q = spec_claim_card(p, Card::Duke);
                lemma_claim_keeps(p, Card::Duke);
                lemma_update_keeps(
                    s.players,
                    s.turn,
                    Player {
                        id: q.id,
                        card1: q.card1,
                        card2: q.card2,
                        coins: cap_add(p.coins as int, 3) as u8,
                    },
                );
                assert(wf(tax_succ(s)));
            }
            if spec_has_card(p, Card::Assassin) && p.coins >= ASSASSINATE_COST {
                lemma_assassinate_seg_wf(s, n);
            }
            if spec_has_card(p, Card::Captain) {
                lemma_steal_seg_wf(s, n);
            }
        },
        Phase::Challenge(m) => {
            lemma_block_seg_wf(s, m, n);
            lemma_unopposed_wf(s, m);
        },
        Phase::LoseInfluence(t) => {
            lemma_lose_wf(s, t as int);
        },
        Phase::EndTurn => {
            lemma_end_turn_wf(s);
        },
    }
}

/// Determinism: the successor relation is a pure function of the position;
/// equal states have equal successor sequences.
pub proof fn lemma_successors_deterministic(s1: StateModel, s2: StateModel)
    requires
        s1 == s2,
    ensures
        spec_successors(s1) == spec_successors(s2),
{
}

/// Totality: the dispatch applies exactly one phase generator to any state,
/// and a well-formed state with at least two players always has a successor.
pub proof fn lemma_successors_nonempty(s: StateModel)
    requires
        wf(s),
        s.players.len() >= 2,
    ensures
        spec_successors(s).len() > 0,
{
    match s.phase {
        Phase::Move => {
            let p = active_player(s);
            if p.coins < MAX_COINS {
            } else {
                assert(p.coins >= COUP_COST);
                let n = s.players.len() as int;
                assert(n == 2);
                if s.turn == 1 {
                    assert(coup_seg(s, 1) == coup_seg(s, 0).push(coup_succ(s, 0)));
                    assert(coup_seg(s, 2) == coup_seg(s, 1));
                } else {
                    assert(coup_seg(s, 2) == coup_seg(s, 1).push(coup_succ(s, 1)));
                }
                assert(coup_seg(s, 2).len() >= 1);
            }
        },
        Phase::Challenge(m) => {
            assert(spec_challenge_successors(s, m).len() >= 1);
        },
        Phase::LoseInfluence(t) => {
            assert(spec_alive(s.players[t as int]));
        },
        Phase::EndTurn => {
        },
    }
}

/// Coin bound: every player of every successor of a well-formed state holds
/// between zero and ten coins.
pub proof fn lemma_coin_bound(s: StateModel)
    requires
        wf(s),
    ensures
        forall|j: int, k: int|
            0 <= j < spec_successors(s).len() && 0 <= k < spec_successors(s)[j].players.len()
                ==> 0 <= (#[trigger] spec_successors(s)[j].players[k]).coins <= MAX_COINS,
{
    lemma_successors_wf(s);
    assert forall|j: int, k: int|
        0 <= j < spec_successors(s).len() && 0 <= k < spec_successors(s)[j].players.len() implies 0
        <= (#[trigger] spec_successors(s)[j].players[k]).coins <= MAX_COINS by {
        assert(wf(spec_successors(s)[j]));
        assert(player_wf(spec_successors(s)[j].players[k]));
    }
}

/// Elimination monotonicity: the number of players never grows along an
/// edge, and strictly shrinks only on an end-of-turn edge out of a state in
/// which some player had lost both influence slots.
pub proof fn lemma_elimination_monotone(s: StateModel)
    requires
        wf(s),
    ensures
        forall|j: int|
            0 <= j < spec_successors(s).len() ==> (#[trigger] spec_successors(s)[j]).players.len()
                <= s.players.len(),
        forall|j: int|
            0 <= j < spec_successors(s).len() ==> ((#[trigger] spec_successors(s)[j]).players.len()
                < s.players.len() ==> s.phase == Phase::EndTurn && exists|i: int|
                0 <= i < s.players.len() && !spec_alive(#[trigger] s.players[i])),
{
    lemma_successors_shape(s);
}

/// The successor relation: one case per phase, exactly as the spec-level
/// `spec_successors` describes it. Pure: the argument is never changed, and
/// equal states yield equal results.
pub fn successors(state: &State) -> (r: Vec<State>)
    requires
        wf(state@),
    ensures
        models_match(r@, spec_successors(state@)),
{
    match state.phase {
        Phase::Move => move_successors(state),
        Phase::Challenge(_) => challenge_successors(state),
        Phase::LoseInfluence(_) => lose_influence_successors(state),
        Phase::EndTurn => {
            let succ = end_turn_successor(state);
            let mut out: Vec<State> = Vec::new();
            out.push(succ);
            out
        },
    }
}

} // verus!
