use coup_solver::game::{initial_state, Card, Move, Phase, Player, State};
use coup_solver::rules::{
    challenge_successors, lose_influence_successors, move_successors, successors,
};

fn player(id: u8, card1: Card, card2: Card, coins: u8) -> Player {
    Player { id, card1, card2, coins }
}

fn two_players(p0: Player, p1: Player, turn: u8, phase: Phase) -> State {
    State { players: vec![p0, p1], turn, phase }
}

#[test]
fn successors_is_deterministic() {
    let s = initial_state();
    let a = successors(&s);
    let b = successors(&s);
    assert_eq!(a, b);
}

#[test]
fn initial_state_has_exactly_four_branches() {
    // From the documented initial state the only legal actions are income,
    // foreign aid, tax (through the wildcard) and steal (through the
    // wildcard): coup and assassinate fail their coin requirements.
    let s = initial_state();
    let succ = move_successors(&s);
    assert_eq!(succ.len(), 4);

    // Income: one coin, straight to end of turn.
    assert_eq!(succ[0].phase, Phase::EndTurn);
    assert_eq!(succ[0].players[0].coins, 3);

    // Foreign aid goes up for contest without granting anything yet.
    assert_eq!(succ[1].phase, Phase::Challenge(Move::ForeignAid));
    assert_eq!(succ[1].players[0].coins, 2);

    // Tax: the wildcard commits to Duke and three coins are granted.
    assert_eq!(succ[2].phase, Phase::EndTurn);
    assert_eq!(succ[2].players[0].coins, 5);
    assert_eq!(succ[2].players[0].card1, Card::Duke);

    // Steal: the wildcard commits to Captain and the action goes up for
    // contest against the only other player.
    assert_eq!(succ[3].phase, Phase::Challenge(Move::Steal(1)));
    assert_eq!(succ[3].players[0].card1, Card::Captain);

    // Nothing targets coup or assassinate.
    for st in &succ {
        assert!(!matches!(st.phase, Phase::LoseInfluence(_)));
        assert!(!matches!(st.phase, Phase::Challenge(Move::Assassinate(_))));
    }
}

#[test]
fn rich_player_can_coup_and_assassinate() {
    let s = two_players(
        player(0, Card::Assassin, Card::Duke, 10),
        player(1, Card::Contessa, Card::Captain, 2),
        0,
        Phase::Move,
    );
    let succ = move_successors(&s);
    // Coins are capped, so no income or foreign aid; coup, tax and
    // assassinate remain (no Captain, no steal).
    assert_eq!(succ.len(), 3);
    assert_eq!(succ[0].phase, Phase::LoseInfluence(1));
    assert_eq!(succ[0].players[0].coins, 3);
    assert_eq!(succ[1].phase, Phase::EndTurn);
    assert_eq!(succ[1].players[0].coins, 10); // tax is capped at ten
    assert_eq!(succ[2].phase, Phase::Challenge(Move::Assassinate(1)));
    assert_eq!(succ[2].players[0].coins, 7);
}

#[test]
fn unopposed_foreign_aid_grants_two_coins() {
    // Both of the opponent's slots are concretely non-Duke, so no blocking
    // branch exists; the unopposed branch must still be produced.
    let s = two_players(
        player(0, Card::Void, Card::Void, 2),
        player(1, Card::Contessa, Card::Assassin, 2),
        0,
        Phase::Challenge(Move::ForeignAid),
    );
    let succ = challenge_successors(&s);
    assert_eq!(succ.len(), 1);
    assert_eq!(succ[0].phase, Phase::EndTurn);
    assert_eq!(succ[0].players[0].coins, 4);
    assert_eq!(succ[0].players[1].coins, 2);
}

#[test]
fn foreign_aid_block_branch_commits_duke() {
    let s = two_players(
        player(0, Card::Void, Card::Void, 2),
        player(1, Card::Void, Card::Assassin, 2),
        0,
        Phase::Challenge(Move::ForeignAid),
    );
    let succ = challenge_successors(&s);
    assert_eq!(succ.len(), 2);
    // The block: the opponent's wildcard commits to Duke and the move is
    // entirely negated.
    assert_eq!(succ[0].phase, Phase::EndTurn);
    assert_eq!(succ[0].players[1].card1, Card::Duke);
    assert_eq!(succ[0].players[0].coins, 2);
    // The unopposed branch still grants the two coins.
    assert_eq!(succ[1].players[0].coins, 4);
}

#[test]
fn steal_challenge_offers_both_blocking_roles() {
    let s = two_players(
        player(0, Card::Captain, Card::Void, 2),
        player(1, Card::Void, Card::Void, 3),
        0,
        Phase::Challenge(Move::Steal(1)),
    );
    let succ = challenge_successors(&s);
    // Captain block, Ambassador block, then the unopposed transfer.
    assert_eq!(succ.len(), 3);
    assert_eq!(succ[0].players[1].card1, Card::Captain);
    assert_eq!(succ[1].players[1].card1, Card::Ambassador);
    assert_eq!(succ[2].players[0].coins, 4);
    assert_eq!(succ[2].players[1].coins, 1);
}

#[test]
fn steal_transfer_is_limited_by_target_and_cap() {
    // The target has a single coin: only one coin moves.
    let s = two_players(
        player(0, Card::Captain, Card::Duke, 2),
        player(1, Card::Contessa, Card::Assassin, 1),
        0,
        Phase::Challenge(Move::Steal(1)),
    );
    let succ = challenge_successors(&s);
    assert_eq!(succ.len(), 1);
    assert_eq!(succ[0].players[0].coins, 3);
    assert_eq!(succ[0].players[1].coins, 0);

    // The actor sits at the cap: nothing moves.
    let s2 = two_players(
        player(0, Card::Captain, Card::Duke, 10),
        player(1, Card::Contessa, Card::Assassin, 5),
        0,
        Phase::Challenge(Move::Steal(1)),
    );
    let succ2 = challenge_successors(&s2);
    assert_eq!(succ2.len(), 1);
    assert_eq!(succ2[0].players[0].coins, 10);
    assert_eq!(succ2[0].players[1].coins, 5);
}

#[test]
fn unopposed_assassination_forces_a_reveal() {
    let s = two_players(
        player(0, Card::Assassin, Card::Void, 0),
        player(1, Card::Duke, Card::Captain, 2),
        0,
        Phase::Challenge(Move::Assassinate(1)),
    );
    let succ = challenge_successors(&s);
    assert_eq!(succ.len(), 1);
    assert_eq!(succ[0].phase, Phase::LoseInfluence(1));
}

#[test]
fn forced_reveal_with_one_dead_slot_has_one_branch() {
    // The target already lost one slot: exactly one successor, losing the
    // living slot, never two.
    let s = two_players(
        player(0, Card::Void, Card::Void, 2),
        player(1, Card::Duke, Card::Dead, 2),
        0,
        Phase::LoseInfluence(1),
    );
    let succ = lose_influence_successors(&s);
    assert_eq!(succ.len(), 1);
    assert_eq!(succ[0].players[1].card1, Card::Dead);
    assert_eq!(succ[0].players[1].card2, Card::Dead);
    assert_eq!(succ[0].phase, Phase::EndTurn);
}

#[test]
fn forced_reveal_with_both_slots_living_has_two_branches() {
    let s = two_players(
        player(0, Card::Void, Card::Void, 2),
        player(1, Card::Duke, Card::Captain, 2),
        0,
        Phase::LoseInfluence(1),
    );
    let succ = lose_influence_successors(&s);
    assert_eq!(succ.len(), 2);
    assert_eq!(succ[0].players[1].card1, Card::Dead);
    assert_eq!(succ[0].players[1].card2, Card::Captain);
    assert_eq!(succ[1].players[1].card1, Card::Duke);
    assert_eq!(succ[1].players[1].card2, Card::Dead);
}

#[test]
fn end_turn_purges_eliminated_players() {
    // Player 1 lost both slots: the purge removes it and the survivor's turn
    // comes up, so the player count strictly decreases here and only here.
    let s = two_players(
        player(0, Card::Duke, Card::Void, 4),
        player(1, Card::Dead, Card::Dead, 2),
        0,
        Phase::EndTurn,
    );
    let succ = successors(&s);
    assert_eq!(succ.len(), 1);
    assert_eq!(succ[0].players.len(), 1);
    assert_eq!(succ[0].players[0].id, 0);
    assert_eq!(succ[0].turn, 0);
    assert_eq!(succ[0].phase, Phase::Move);
}

#[test]
fn end_turn_advances_turn_and_canonizes() {
    let s = two_players(
        player(0, Card::Duke, Card::Void, 4),
        player(1, Card::Contessa, Card::Dead, 2),
        0,
        Phase::EndTurn,
    );
    let succ = successors(&s);
    assert_eq!(succ.len(), 1);
    // Nobody was eliminated: the count is unchanged and the turn advances.
    assert_eq!(succ[0].players.len(), 2);
    assert_eq!(succ[0].turn, 1);
    // Card slots come out in the fixed order.
    assert_eq!(succ[0].players[0].card1, Card::Void);
    assert_eq!(succ[0].players[0].card2, Card::Duke);
    assert_eq!(succ[0].players[1].card1, Card::Dead);
    assert_eq!(succ[0].players[1].card2, Card::Contessa);
}

#[test]
fn every_phase_yields_a_successor() {
    // One state per phase, all non-terminal: each generator produces at
    // least one branch.
    let m = two_players(
        player(0, Card::Dead, Card::Duke, 10),
        player(1, Card::Contessa, Card::Captain, 10),
        0,
        Phase::Move,
    );
    assert!(!successors(&m).is_empty());
    let c = two_players(
        player(0, Card::Captain, Card::Duke, 0),
        player(1, Card::Contessa, Card::Assassin, 0),
        0,
        Phase::Challenge(Move::Steal(1)),
    );
    assert!(!successors(&c).is_empty());
    let l = two_players(
        player(0, Card::Captain, Card::Duke, 0),
        player(1, Card::Contessa, Card::Assassin, 0),
        0,
        Phase::LoseInfluence(1),
    );
    assert!(!successors(&l).is_empty());
    let e = two_players(
        player(0, Card::Captain, Card::Duke, 0),
        player(1, Card::Dead, Card::Assassin, 0),
        0,
        Phase::EndTurn,
    );
    assert!(!successors(&e).is_empty());
}

#[test]
fn assassinate_needs_exactly_three_coins() {
    let poor = two_players(
        player(0, Card::Assassin, Card::Dead, 2),
        player(1, Card::Contessa, Card::Captain, 2),
        0,
        Phase::Move,
    );
    for st in move_successors(&poor) {
        assert!(!matches!(st.phase, Phase::Challenge(Move::Assassinate(_))));
    }
    let ready = two_players(
        player(0, Card::Assassin, Card::Dead, 3),
        player(1, Card::Contessa, Card::Captain, 2),
        0,
        Phase::Move,
    );
    let branches: Vec<_> = move_successors(&ready)
        .into_iter()
        .filter(|st| matches!(st.phase, Phase::Challenge(Move::Assassinate(_))))
        .collect();
    assert_eq!(branches.len(), 1);
    assert_eq!(branches[0].players[0].coins, 0);
}

#[test]
fn contessa_blocks_assassination() {
    let s = two_players(
        player(0, Card::Assassin, Card::Void, 0),
        player(1, Card::Contessa, Card::Captain, 2),
        0,
        Phase::Challenge(Move::Assassinate(1)),
    );
    let succ = challenge_successors(&s);
    // The Contessa block, then the unopposed kill.
    assert_eq!(succ.len(), 2);
    assert_eq!(succ[0].phase, Phase::EndTurn);
    assert_eq!(succ[0].players[1].card1, Card::Contessa);
    assert_eq!(succ[1].phase, Phase::LoseInfluence(1));
}

#[test]
fn coins_stay_within_bounds_on_sampled_edges() {
    // Income at nine coins reaches exactly the cap and no branch exceeds it.
    let s = two_players(
        player(0, Card::Duke, Card::Duke, 9),
        player(1, Card::Contessa, Card::Captain, 9),
        0,
        Phase::Move,
    );
    for st in successors(&s) {
        for p in &st.players {
            assert!(p.coins <= 10);
        }
    }
}
