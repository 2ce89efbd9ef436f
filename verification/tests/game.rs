use coup_solver::game::{clone_state, initial_state, is_well_formed, Card, Move, Phase, Player, State};
use coup_solver::solver::iff;

fn player(id: u8, card1: Card, card2: Card, coins: u8) -> Player {
    Player { id, card1, card2, coins }
}

#[test]
fn has_card_concrete_match() {
    let p = player(0, Card::Duke, Card::Contessa, 2);
    assert!(p.has_card(&Card::Duke));
    assert!(p.has_card(&Card::Contessa));
    assert!(!p.has_card(&Card::Captain));
    assert!(!p.has_card(&Card::Assassin));
}

#[test]
fn has_card_wildcard_matches_every_role() {
    // One uncommitted slot makes every query succeed, whatever the other holds.
    let p = player(0, Card::Void, Card::Assassin, 2);
    for c in [
        Card::Ambassador,
        Card::Assassin,
        Card::Captain,
        Card::Contessa,
        Card::Duke,
        Card::Dead,
        Card::Void,
    ] {
        assert!(p.has_card(&c));
    }
    let q = player(1, Card::Contessa, Card::Void, 0);
    assert!(q.has_card(&Card::Duke));
    assert!(q.has_card(&Card::Captain));
}

#[test]
fn has_card_dead_slots_do_not_match() {
    let p = player(0, Card::Dead, Card::Contessa, 2);
    assert!(!p.has_card(&Card::Duke));
    assert!(p.has_card(&Card::Contessa));
}

#[test]
fn claim_card_commits_first_void_slot() {
    let mut p = player(0, Card::Void, Card::Void, 2);
    p.claim_card(Card::Duke);
    assert_eq!(p.card1, Card::Duke);
    assert_eq!(p.card2, Card::Void);
}

#[test]
fn claim_card_commits_second_slot_when_first_is_concrete() {
    let mut p = player(0, Card::Contessa, Card::Void, 2);
    p.claim_card(Card::Duke);
    assert_eq!(p.card1, Card::Contessa);
    assert_eq!(p.card2, Card::Duke);
}

#[test]
fn claim_card_noop_when_already_held() {
    let mut p = player(0, Card::Duke, Card::Void, 2);
    p.claim_card(Card::Duke);
    assert_eq!(p.card1, Card::Duke);
    assert_eq!(p.card2, Card::Void);
}

#[test]
fn claim_card_twice_is_noop_second_time() {
    // Claim idempotence on concrete values.
    let mut p = player(0, Card::Void, Card::Void, 2);
    p.claim_card(Card::Captain);
    let after_first = p;
    p.claim_card(Card::Captain);
    assert_eq!(p, after_first);
}

#[test]
fn is_challengable_per_move() {
    assert!(!Move::Income.is_challengable());
    assert!(Move::ForeignAid.is_challengable());
    assert!(!Move::Coup(1).is_challengable());
    assert!(!Move::Tax.is_challengable());
    assert!(Move::Assassinate(1).is_challengable());
    assert!(!Move::Exchange.is_challengable());
    assert!(Move::Steal(1).is_challengable());
}

#[test]
fn canonize_orders_slots() {
    let s = State {
        players: vec![player(0, Card::Duke, Card::Void, 2), player(1, Card::Dead, Card::Contessa, 3)],
        turn: 0,
        phase: Phase::Move,
    };
    let c = s.canonize();
    // Void sorts before Duke; Dead sorts before Contessa.
    assert_eq!(c.players[0].card1, Card::Void);
    assert_eq!(c.players[0].card2, Card::Duke);
    assert_eq!(c.players[1].card1, Card::Dead);
    assert_eq!(c.players[1].card2, Card::Contessa);
    assert_eq!(c.turn, 0);
    assert_eq!(c.phase, Phase::Move);
}

#[test]
fn canonize_keeps_ordered_slots() {
    let s = State {
        players: vec![player(0, Card::Void, Card::Duke, 2), player(1, Card::Void, Card::Void, 2)],
        turn: 1,
        phase: Phase::EndTurn,
    };
    let c = s.canonize();
    assert_eq!(c, s);
}

#[test]
fn canonize_is_idempotent() {
    let s = State {
        players: vec![player(0, Card::Duke, Card::Dead, 2), player(1, Card::Captain, Card::Void, 3)],
        turn: 1,
        phase: Phase::Move,
    };
    let once = s.canonize();
    let twice = once.canonize();
    assert_eq!(once, twice);
}

#[test]
fn initial_state_is_documented_configuration() {
    let s = initial_state();
    assert_eq!(s.players.len(), 2);
    assert_eq!(s.players[0], player(0, Card::Void, Card::Void, 2));
    assert_eq!(s.players[1], player(1, Card::Void, Card::Void, 2));
    assert_eq!(s.turn, 0);
    assert_eq!(s.phase, Phase::Move);
    assert!(is_well_formed(&s));
}

#[test]
fn well_formedness_rejects_bad_states() {
    let mut s = initial_state();
    s.turn = 2;
    assert!(!is_well_formed(&s));
    let mut s2 = initial_state();
    s2.players[0].coins = 11;
    assert!(!is_well_formed(&s2));
    let s3 = State {
        players: vec![player(0, Card::Void, Card::Void, 2), player(1, Card::Void, Card::Void, 2)],
        turn: 0,
        phase: Phase::LoseInfluence(0),
    };
    // The forced-reveal target can never be the active player.
    assert!(!is_well_formed(&s3));
    let s4 = State {
        players: vec![player(0, Card::Void, Card::Void, 2), player(1, Card::Void, Card::Void, 2)],
        turn: 0,
        phase: Phase::Challenge(Move::Tax),
    };
    // Tax is not challengable, so it can never sit inside a challenge phase.
    assert!(!is_well_formed(&s4));
}

#[test]
fn clone_state_copies_everything() {
    let s = State {
        players: vec![player(0, Card::Assassin, Card::Dead, 7)],
        turn: 0,
        phase: Phase::EndTurn,
    };
    let c = clone_state(&s);
    assert_eq!(c, s);
}

#[test]
fn iff_truth_table() {
    assert!(iff(true, true));
    assert!(!iff(true, false));
    assert!(!iff(false, true));
    assert!(iff(false, false));
}
