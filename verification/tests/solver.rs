use coup_solver::game::{initial_state, Card, Phase, Player, State};
use coup_solver::rules::successors;
use coup_solver::solver::{encode, is_controller_turn, solve};

fn player(id: u8, card1: Card, card2: Card, coins: u8) -> Player {
    Player { id, card1, card2, coins }
}

#[test]
fn encoding_separates_nearby_states() {
    let a = initial_state();
    let mut b = initial_state();
    b.turn = 1;
    let mut c = initial_state();
    c.players[0].coins = 3;
    let mut d = initial_state();
    d.phase = Phase::EndTurn;
    let ka = encode(&a);
    assert_ne!(ka, encode(&b));
    assert_ne!(ka, encode(&c));
    assert_ne!(ka, encode(&d));
    assert_ne!(encode(&b), encode(&c));
}

#[test]
fn controller_turn_attribution() {
    let mut s = initial_state();
    assert!(is_controller_turn(&s)); // seat 0 to move
    s.turn = 1;
    assert!(!is_controller_turn(&s));
    // In a challenge the non-acting side decides.
    let mut c = initial_state();
    c.phase = Phase::Challenge(coup_solver::game::Move::ForeignAid);
    assert!(!is_controller_turn(&c));
    c.turn = 1;
    assert!(is_controller_turn(&c));
    // In a forced reveal the target decides.
    let l = State {
        players: vec![
            player(0, Card::Void, Card::Void, 2),
            player(1, Card::Void, Card::Void, 2),
        ],
        turn: 1,
        phase: Phase::LoseInfluence(0),
    };
    assert!(is_controller_turn(&l));
}

#[test]
fn solver_rank_of_terminal_win_and_loss() {
    let won = State {
        players: vec![player(0, Card::Duke, Card::Dead, 4)],
        turn: 0,
        phase: Phase::Move,
    };
    let sol = solve(&won);
    assert_eq!(sol.winner.get(&encode(&won)), Some(&1));

    let lost = State {
        players: vec![player(1, Card::Duke, Card::Dead, 4)],
        turn: 0,
        phase: Phase::Move,
    };
    let sol2 = solve(&lost);
    assert_eq!(sol2.winner.get(&encode(&lost)), Some(&-1));
}

#[test]
fn solver_terminates_on_initial_state_with_a_verdict() {
    // The full reachable graph of the documented two-player initial state is
    // finite; the solver must come back with a nonzero signed rank for it.
    let init = initial_state();
    let sol = solve(&init);
    let verdict = *sol.winner.get(&encode(&init)).expect("initial state must be ranked");
    assert_ne!(verdict, 0);
    // Every recorded rank is resolved: no provisional zeros survive.
    for (_, rank) in sol.winner.iter() {
        assert_ne!(*rank, 0);
    }
}

#[test]
fn solver_ranks_follow_the_chosen_successor() {
    // Along the strategy, a rank other than the cycle's -1 must be exactly
    // one step beyond the chosen successor's rank, and terminal keys carry
    // no strategy entry.
    let init = initial_state();
    let sol = solve(&init);
    let mut current = init;
    for _ in 0..12 {
        if current.players.len() <= 1 {
            assert!(sol.strategy.get(&encode(&current)).is_none());
            break;
        }
        let v = *sol.winner.get(&encode(&current)).expect("reached state must be ranked");
        let next = sol.strategy.get(&encode(&current)).expect("non-terminal state needs a strategy").clone();
        let vn = *sol.winner.get(&encode(&next)).expect("table must be closed under successors");
        if v > 0 {
            assert_eq!(v, vn + 1);
            assert!(vn > 0);
        } else if v < -1 {
            assert_eq!(v, vn - 1);
            assert!(vn < 0);
        }
        current = next;
    }
}

#[test]
fn solver_strategy_points_to_real_successors() {
    let init = initial_state();
    let sol = solve(&init);
    // Walk the strategy for a handful of plies; every recorded choice must
    // be one of the true successors of the position it is recorded for.
    let mut current = init;
    for _ in 0..6 {
        if current.players.len() <= 1 {
            break;
        }
        let key = encode(&current);
        let next = match sol.strategy.get(&key) {
            Some(n) => n.clone(),
            None => break,
        };
        let succ = successors(&current);
        assert!(succ.contains(&next));
        current = next;
    }
}
