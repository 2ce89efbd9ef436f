//! The data model of the game: cards, players, moves, phases and whole
//! positions, together with their mathematical views and the well-formedness
//! invariant that every reachable position satisfies.

use vstd::prelude::*;

verus! {

/// What a single influence slot holds.
#[derive(Clone, Copy, PartialEq, Eq, Structural, Debug)]
pub enum Card {
    /// This influence slot has been permanently lost.
    Dead,
    /// Slot not yet committed to any specific role; it matches any role query
    /// until an action forces it to commit.
    Void,
    Ambassador,
    Assassin,
    Captain,
    Contessa,
    Duke,
}

/// Stable seat identity, assigned at game start and never changed.
pub type PlayerId = u8;

/// One player: seat identity, two card slots and a coin balance.
#[derive(Clone, Copy, PartialEq, Eq, Structural, Debug)]
pub struct Player {
    pub id: PlayerId,
    pub card1: Card,
    pub card2: Card,
    pub coins: u8,
}

/// An action the active player can select.
#[derive(Clone, Copy, PartialEq, Eq, Structural, Debug)]
pub enum Move {
    Income,
    ForeignAid,
    Coup(PlayerId),
    Tax,
    Assassinate(PlayerId),
    /// Present in the action space but disabled: no branch is ever produced.
    Exchange,
    Steal(PlayerId),
}

/// The control state of the turn automaton.
#[derive(Clone, Copy, PartialEq, Eq, Structural, Debug)]
pub enum Phase {
    /// The active player selects an action.
    Move,
    /// The pending action may be blocked by any non-acting player.
    Challenge(Move),
    /// The given player must permanently lose one influence.
    LoseInfluence(PlayerId),
    /// Bookkeeping: purge eliminated players, advance the turn.
    EndTurn,
}

/// A whole game position. Positions are values: every transition builds a new
/// one, and equality is structural.
#[derive(Clone, PartialEq, Eq, Debug)]
pub struct State {
    /// Live players in turn-rotation order.
    pub players: Vec<Player>,
    /// Index into `players` of the active player.
    pub turn: PlayerId,
    pub phase: Phase,
}

/// The mathematical model of a `State`: the same data with the player vector
/// abstracted to a sequence.
#[verifier::ext_equal]
pub struct StateModel {
    pub players: Seq<Player>,
    pub turn: int,
    pub phase: Phase,
}

impl View for State {
    type V = StateModel;

    open spec fn view(&self) -> StateModel {
        StateModel { players: self.players@, turn: self.turn as int, phase: self.phase }
    }
}

pub const MAX_COINS: u8 = 10;
pub const ASSASSINATE_COST: u8 = 3;
pub const COUP_COST: u8 = 7;
pub const INITIAL_COINS: u8 = 2;
/// The distinguished seat whose outcome the solver evaluates.
pub const CONTROLLER: PlayerId = 0;

/// A player holds a card if either slot already equals it, or either slot is
/// still uncommitted (`Void` acts as a wildcard).
pub open spec fn spec_has_card(p: Player, c: Card) -> bool {
    p.card1 == c || p.card2 == c || p.card1 == Card::Void || p.card2 == Card::Void
}

/// Committing a role: a no-op if the player already holds it concretely,
/// otherwise the first uncommitted slot is bound to it. When no slot is
/// uncommitted and neither slot matches, the player is returned unchanged;
/// callers never invoke the commitment there.
pub open spec fn spec_claim_card(p: Player, c: Card) -> Player {
    if p.card1 == c || p.card2 == c {
        p
    } else if p.card1 == Card::Void {
        Player { id: p.id, card1: c, card2: p.card2, coins: p.coins }
    } else if p.card2 == Card::Void {
        Player { id: p.id, card1: p.card1, card2: c, coins: p.coins }
    } else {
        p
    }
}

/// A player still has influence: at least one slot is not `Dead`.
pub open spec fn spec_alive(p: Player) -> bool {
    p.card1 != Card::Dead || p.card2 != Card::Dead
}

pub open spec fn player_wf(p: Player) -> bool {
    p.coins <= MAX_COINS && p.id < 2
}

pub open spec fn all_alive(ps: Seq<Player>) -> bool {
    forall|i: int| 0 <= i < ps.len() ==> spec_alive(#[trigger] ps[i])
}

pub open spec fn all_player_wf(ps: Seq<Player>) -> bool {
    forall|i: int| 0 <= i < ps.len() ==> player_wf(#[trigger] ps[i])
}

/// A valid target of a pending action: an index of a living player other than
/// the active one.
pub open spec fn valid_target(s: StateModel, t: int) -> bool {
    0 <= t < s.players.len() && t != s.turn
}

/// The only moves that can stand inside a `Challenge` phase, with a valid
/// target where they carry one.
pub open spec fn challenge_move_wf(s: StateModel, m: Move) -> bool {
    match m {
        Move::ForeignAid => true,
        Move::Assassinate(t) => valid_target(s, t as int),
        Move::Steal(t) => valid_target(s, t as int),
        _ => false,
    }
}

/// Well-formedness of a position. Every state reachable from the initial
/// configuration satisfies this, and every successor of a well-formed state is
/// well-formed again.
pub open spec fn wf(s: StateModel) -> bool {
    &&& 1 <= s.players.len() <= 2
    &&& 0 <= s.turn < s.players.len()
    &&& all_player_wf(s.players)
    &&& match s.phase {
        Phase::Move => all_alive(s.players),
        Phase::Challenge(m) => challenge_move_wf(s, m) && all_alive(s.players),
        Phase::LoseInfluence(t) => valid_target(s, t as int) && all_alive(s.players),
        Phase::EndTurn => spec_alive(s.players[s.turn]),
    }
}

impl Player {
    /// True if either slot already equals `card`, or either slot is still
    /// uncommitted: an uncommitted slot matches any role.
    pub fn has_card(&self, card: &Card) -> (r: bool)
        ensures
            r == spec_has_card(*self, *card),
    {
        self.card1 == *card || self.card2 == *card || self.card1 == Card::Void
            || self.card2 == Card::Void
    }

    /// Commit this player to holding `card`: a no-op if a slot already equals
    /// it, otherwise the first uncommitted slot is bound to it.
    pub fn claim_card(&mut self, card: Card)
        requires
            spec_has_card(*old(self), card),
        ensures
            *final(self) == spec_claim_card(*old(self), card),
    {
        if !(self.card1 == card || self.card2 == card) {
            if self.card1 == Card::Void {
                self.card1 = card;
            } else {
                self.card2 = card;
            }
        }
    }

    /// True if at least one slot is not `Dead`.
    pub fn is_alive(&self) -> (r: bool)
        ensures
            r == spec_alive(*self),
    {
        self.card1 != Card::Dead || self.card2 != Card::Dead
    }
}

pub open spec fn spec_is_challengable(m: Move) -> bool {
    match m {
        Move::Income => false,
        Move::ForeignAid => true,
        Move::Coup(_) => false,
        Move::Tax => false,
        Move::Assassinate(_) => true,
        Move::Exchange => false,
        Move::Steal(_) => true,
    }
}

impl Move {
    /// Only ForeignAid, Assassinate and Steal can be contested.
    pub fn is_challengable(&self) -> (r: bool)
        ensures
            r == spec_is_challengable(*self),
    {
        match self {
            Move::Income => false,
            Move::ForeignAid => true,
            Move::Coup(_) => false,
            Move::Tax => false,
            Move::Assassinate(_) => true,
            Move::Exchange => false,
            Move::Steal(_) => true,
        }
    }
}

/// A fixed total order over cards, used to normalize the two slots of a
/// player and when encoding a position as an integer key.
pub open spec fn card_code(c: Card) -> int {
    match c {
        Card::Dead => 0,
        Card::Void => 1,
        Card::Ambassador => 2,
        Card::Assassin => 3,
        Card::Captain => 4,
        Card::Contessa => 5,
        Card::Duke => 6,
    }
}

/// Executable form of `card_code`.
pub fn card_rank(c: &Card) -> (r: u8)
    ensures
        r as int == card_code(*c),
{
    match c {
        Card::Dead => 0,
        Card::Void => 1,
        Card::Ambassador => 2,
        Card::Assassin => 3,
        Card::Captain => 4,
        Card::Contessa => 5,
        Card::Duke => 6,
    }
}

/// The two slots of a player put into a fixed order. The pair is semantically
/// unordered, so this merges positions differing only in slot placement.
pub open spec fn canon_player(p: Player) -> Player {
    if card_code(p.card1) <= card_code(p.card2) {
        p
    } else {
        Player { id: p.id, card1: p.card2, card2: p.card1, coins: p.coins }
    }
}

pub open spec fn spec_canonize(s: StateModel) -> StateModel {
    StateModel {
        players: Seq::new(s.players.len(), |i: int| canon_player(s.players[i])),
        turn: s.turn,
        phase: s.phase,
    }
}

impl State {
    /// Normalize every player's two card slots into the fixed card order, so
    /// that two positions differing only in which physical slot holds which
    /// card collapse to one memo-table entry.
    pub fn canonize(&self) -> (r: State)
        ensures
            r@ == spec_canonize(self@),
    {
        let mut new_players: Vec<Player> = Vec::new();
        let n = self.players.len();
        for i in 0..n
            invariant
                n == self.players@.len(),
                new_players@.len() == i,
                forall|j: int| 0 <= j < i ==> new_players@[j] == canon_player(self.players@[j]),
        {
            let p = self.players[i];
            let cp = if card_rank(&p.card1) <= card_rank(&p.card2) {
                p
            } else {
                Player { id: p.id, card1: p.card2, card2: p.card1, coins: p.coins }
            };
            new_players.push(cp);
        }
        let r = State { players: new_players, turn: self.turn, phase: self.phase };
        proof {
            assert(r@.players =~= spec_canonize(self@).players);
            assert(r@ =~= spec_canonize(self@));
        }
        r
    }
}

/// An owned copy of a position; the copy models to the same value.
pub fn clone_state(s: &State) -> (r: State)
    ensures
        r@ == s@,
{
    let mut players: Vec<Player> = Vec::new();
    let n = s.players.len();
    for i in 0..n
        invariant
            n == s.players@.len(),
            players@.len() == i,
            forall|j: int| 0 <= j < i ==> players@[j] == s.players@[j],
    {
        players.push(s.players[i]);
    }
    let r = State { players, turn: s.turn, phase: s.phase };
    proof {
        assert(r@.players =~= s@.players);
        assert(r@ =~= s@);
    }
    r
}

/// The documented initial configuration: two players with ids 0 and 1, both
/// slots uncommitted, two coins each, seat 0 to move, phase `Move`.
pub open spec fn spec_initial_state() -> StateModel {
    StateModel {
        players: seq![
            Player { id: 0, card1: Card::Void, card2: Card::Void, coins: INITIAL_COINS },
            Player { id: 1, card1: Card::Void, card2: Card::Void, coins: INITIAL_COINS },
        ],
        turn: 0,
        phase: Phase::Move,
    }
}

/// Build the documented initial configuration.
pub fn initial_state() -> (r: State)
    ensures
        r@ == spec_initial_state(),
        wf(r@),
{
    let mut players: Vec<Player> = Vec::new();
    players.push(Player { id: 0, card1: Card::Void, card2: Card::Void, coins: INITIAL_COINS });
    players.push(Player { id: 1, card1: Card::Void, card2: Card::Void, coins: INITIAL_COINS });
    let r = State { players, turn: 0, phase: Phase::Move };
    proof {
        assert(r@.players =~= spec_initial_state().players);
        assert(r@ =~= spec_initial_state());
    }
    r
}

/// Executable check of the well-formedness invariant, so that unverified
/// callers can guard calls into the library.
pub fn is_well_formed(s: &State) -> (r: bool)
    ensures
        r == wf(s@),
{
    let n = s.players.len();
    if !(1 <= n && n <= 2) {
        return false;
    }
    if !((s.turn as usize) < n) {
        return false;
    }
    if !players_wf(&s.players) {
        return false;
    }
    match s.phase {
        Phase::Move => players_alive(&s.players),
        Phase::Challenge(m) => {
            let target_ok = match m {
                Move::ForeignAid => true,
                Move::Assassinate(t) => (t as usize) < n && t != s.turn,
                Move::Steal(t) => (t as usize) < n && t != s.turn,
                _ => false,
            };
            target_ok && players_alive(&s.players)
        },
        Phase::LoseInfluence(t) => {
            (t as usize) < n && t != s.turn && players_alive(&s.players)
        },
        Phase::EndTurn => s.players[s.turn as usize].is_alive(),
    }
}

fn players_wf(ps: &Vec<Player>) -> (r: bool)
    ensures
        r == all_player_wf(ps@),
{
    let n = ps.len();
    for i in 0..n
        invariant
            n == ps@.len(),
            forall|j: int| 0 <= j < i ==> player_wf(#[trigger] ps@[j]),
    {
        let p = ps[i];
        if !(p.coins <= MAX_COINS && p.id < 2) {
            return false;
        }
    }
    true
}

fn players_alive(ps: &Vec<Player>) -> (r: bool)
    ensures
        r == all_alive(ps@),
{
    let n = ps.len();
    for i in 0..n
        invariant
            n == ps@.len(),
            forall|j: int| 0 <= j < i ==> spec_alive(#[trigger] ps@[j]),
    {
        if !ps[i].is_alive() {
            return false;
        }
    }
    true
}

/// Normalization is idempotent: a canonized position canonizes to itself.
pub proof fn lemma_canonize_idempotent(s: StateModel)
    ensures
        spec_canonize(spec_canonize(s)) == spec_canonize(s),
{
    assert forall|i: int|
        0 <= i < s.players.len() implies canon_player(
        #[trigger] spec_canonize(s).players[i],
    ) == spec_canonize(s).players[i] by {
        assert(spec_canonize(s).players[i] == canon_player(s.players[i]));
    }
    assert(spec_canonize(spec_canonize(s)).players =~= spec_canonize(s).players);
    assert(spec_canonize(spec_canonize(s)) =~= spec_canonize(s));
}

/// Wildcard matching: a player with an uncommitted slot matches every role
/// query, whatever the other slot holds.
pub proof fn lemma_wildcard_matches(p: Player, c: Card)
    requires
        p.card1 == Card::Void || p.card2 == Card::Void,
    ensures
        spec_has_card(p, c),
{
}

/// Claim idempotence: once a role has been committed, committing it again
/// changes nothing.
pub proof fn lemma_claim_idempotent(p: Player, c: Card)
    requires
        spec_has_card(p, c),
    ensures
        spec_claim_card(spec_claim_card(p, c), c) == spec_claim_card(p, c),
{
}

} // verus!
