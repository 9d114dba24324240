//! The two-phase turn scheduler.
use vstd::prelude::*;

use crate::movement::Actor;

verus! {

/// Whose turn it is: the player's, or everyone else's.
#[derive(Clone, Copy, PartialEq, Eq, Hash, Debug, Structural)]
pub enum TurnState {
    Player,
    Environment,
}

impl Default for TurnState {
    /// Play starts with the player.
    fn default() -> (r: TurnState)
        ensures
            r == TurnState::Player,
    {
        TurnState::Player
    }
}

/// An actor's action budget for the phase it acts in.
#[derive(Clone, Copy, PartialEq, Eq, Hash, Debug, Structural)]
pub struct TurnTaker {
    pub actions_per_turn: u32,
    pub actions_remaining: u32,
}

impl Default for TurnTaker {
    /// One action per turn, none spent yet.
    fn default() -> (r: TurnTaker)
        ensures
            r.actions_per_turn == 1,
            r.actions_remaining == 1,
    {
        TurnTaker { actions_per_turn: 1, actions_remaining: 1 }
    }
}

impl TurnTaker {
    /// The budget never exceeds what a turn grants.
    pub open spec fn wf(&self) -> bool {
        self.actions_remaining <= self.actions_per_turn
    }

    /// A budget of `actions_per_turn` actions, none spent.
    pub fn new(actions_per_turn: u32) -> (r: TurnTaker)
        ensures
            r.actions_per_turn == actions_per_turn,
            r.actions_remaining == actions_per_turn,
    {
        TurnTaker { actions_per_turn, actions_remaining: actions_per_turn }
    }
}

/// Every actor's budget is within what its turn grants.
pub open spec fn budgets_wf(actors: Seq<Actor>) -> bool {
    forall|i: int| 0 <= i < actors.len() ==> (#[trigger] actors[i]).turn.wf()
}

/// The budget after one action.
pub open spec fn spent(t: TurnTaker) -> TurnTaker {
    TurnTaker { actions_remaining: (t.actions_remaining - 1) as u32, ..t }
}

/// The actor after spending one action.
pub open spec fn actor_spent(a: Actor) -> Actor {
    Actor { turn: spent(a.turn), ..a }
}

/// The budget refilled for a new phase.
pub open spec fn refilled(t: TurnTaker) -> TurnTaker {
    TurnTaker { actions_remaining: t.actions_per_turn, ..t }
}

/// The actor with its budget refilled.
pub open spec fn actor_refilled(a: Actor) -> Actor {
    Actor { turn: refilled(a.turn), ..a }
}

/// Whether the table holds a player actor.
pub open spec fn has_player(actors: Seq<Actor>) -> bool {
    exists|i: int| 0 <= i < actors.len() && #[trigger] actors[i].is_player
}

/// Whether every actor of the given side has spent its budget (vacuously true
/// when there is none).
pub open spec fn side_done(actors: Seq<Actor>, player_side: bool) -> bool {
    forall|i: int|
        0 <= i < actors.len() && #[trigger] actors[i].is_player == player_side
            ==> actors[i].turn.actions_remaining == 0
}

/// The table with the budgets of one side refilled.
pub open spec fn refill_side(actors: Seq<Actor>, player_side: bool) -> Seq<Actor> {
    actors.map_values(
        |a: Actor|
            if a.is_player == player_side {
                actor_refilled(a)
            } else {
                a
            },
    )
}

/// One evaluation of the scheduler: the next phase and the table after it.
/// In the player phase, play passes to the environment once the player has no
/// action left (its budget is refilled), or at once if there is no player.
/// In the environment phase, play passes to the player once every other actor
/// has no action left, and their budgets are refilled.
pub open spec fn advance(state: TurnState, actors: Seq<Actor>) -> (TurnState, Seq<Actor>) {
    match state {
        TurnState::Player => if !has_player(actors) {
            (TurnState::Environment, actors)
        } else if side_done(actors, true) {
            (TurnState::Environment, refill_side(actors, true))
        } else {
            (TurnState::Player, actors)
        },
        TurnState::Environment => if side_done(actors, false) {
            (TurnState::Player, refill_side(actors, false))
        } else {
            (TurnState::Environment, actors)
        },
    }
}

/// Refills the budget of every actor on one side.
fn refill(actors: &mut Vec<Actor>, player_side: bool)
    ensures
        final(actors)@ == refill_side(old(actors)@, player_side),
{
    let mut i: usize = 0;
    while i < actors.len()
        invariant
            0 <= i <= actors@.len(),
            actors@.len() == old(actors)@.len(),
            forall|j: int| 0 <= j < i ==> actors@[j] == refill_side(old(actors)@, player_side)[j],
            forall|j: int| i <= j < actors@.len() ==> actors@[j] == old(actors)@[j],
        decreases actors@.len() - i,
    {
        if actors[i].is_player == player_side {
            let mut a = actors[i];
            a.turn.actions_remaining = a.turn.actions_per_turn;
            actors.set(i, a);
        }
        i = i + 1;
    }
    assert(actors@ =~= refill_side(old(actors)@, player_side));
}

proof fn lemma_refill_wf(actors: Seq<Actor>, player_side: bool)
    requires
        budgets_wf(actors),
    ensures
        budgets_wf(refill_side(actors, player_side)),
{
    let r = refill_side(actors, player_side);
    assert forall|i: int| 0 <= i < r.len() implies (#[trigger] r[i]).turn.wf() by {
        assert(actors[i].turn.wf());
    }
}

/// Whether the given side has any actor, and whether all of its actors are out of
/// actions.
fn side_status(actors: &Vec<Actor>, player_side: bool) -> (r: (bool, bool))
    ensures
        r.0 == (exists|i: int| 0 <= i < actors@.len() && #[trigger] actors@[i].is_player == player_side),
        r.1 == side_done(actors@, player_side),
{
    let mut any = false;
    let mut done = true;
    let mut i: usize = 0;
    while i < actors.len()
        invariant
            0 <= i <= actors@.len(),
            any == (exists|j: int| 0 <= j < i && #[trigger] actors@[j].is_player == player_side),
            done == (forall|j: int|
                0 <= j < i && #[trigger] actors@[j].is_player == player_side
                    ==> actors@[j].turn.actions_remaining == 0),
        decreases actors@.len() - i,
    {
        if actors[i].is_player == player_side {
            any = true;
            if actors[i].turn.actions_remaining != 0 {
                done = false;
            }
        }
        i = i + 1;
    }
    (any, done)
}

/// Evaluates the phase transition once, after the actors of the current phase
/// have had their chance to act, and returns the next phase. Budgets are refilled
/// as `advance` describes.
pub fn advance_turn_state(state: TurnState, actors: &mut Vec<Actor>) -> (r: TurnState)
    ensures
        (r, final(actors)@) == advance(state, old(actors)@),
        budgets_wf(old(actors)@) ==> budgets_wf(final(actors)@),
{
    match state {
        TurnState::Player => {
            let (any, done) = side_status(actors, true);
            if !any {
                TurnState::Environment
            } else if done {
                refill(actors, true);
                proof {
                    if budgets_wf(old(actors)@) {
                        lemma_refill_wf(old(actors)@, true);
                    }
                }
                TurnState::Environment
            } else {
                TurnState::Player
            }
        },
        TurnState::Environment => {
            let (_, done) = side_status(actors, false);
            if done {
                refill(actors, false);
                proof {
                    if budgets_wf(old(actors)@) {
                        lemma_refill_wf(old(actors)@, false);
                    }
                }
                TurnState::Player
            } else {
                TurnState::Environment
            }
        },
    }
}

/// The phases cycle. Take a table whose only player, at `p`, starts the player
/// phase with two actions per turn and both unspent. After one action the phase
/// stays with the player; after a second it passes to the environment and the
/// player's budget is back at two. Once every other actor of a later table (in
/// which the player is as the scheduler left it) is out of actions, the phase
/// returns to the player, whose budget is still two.
pub proof fn lemma_turn_phase_cycle(actors: Seq<Actor>, p: int, later: Seq<Actor>)
    requires
        0 <= p < actors.len(),
        actors[p].is_player,
        actors[p].turn.actions_per_turn == 2,
        actors[p].turn.actions_remaining == 2,
        forall|i: int| 0 <= i < actors.len() && i != p ==> !(#[trigger] actors[i]).is_player,
        later.len() == actors.len(),
        later[p] == advance(
            TurnState::Player,
            actors.update(p, actor_spent(actor_spent(actors[p]))),
        ).1[p],
        forall|i: int|
            0 <= i < later.len() && i != p ==> !(#[trigger] later[i]).is_player
                && later[i].turn.actions_remaining == 0,
    ensures
        advance(TurnState::Player, actors.update(p, actor_spent(actors[p]))).0 == TurnState::Player,
        ({
            let after = advance(
                TurnState::Player,
                actors.update(p, actor_spent(actor_spent(actors[p]))),
            );
            &&& after.0 == TurnState::Environment
            &&& after.1[p].turn.actions_remaining == 2
        }),
        advance(TurnState::Environment, later).0 == TurnState::Player,
        advance(TurnState::Environment, later).1[p].turn.actions_remaining == 2,
{
    let once = actors.update(p, actor_spent(actors[p]));
    let twice = actors.update(p, actor_spent(actor_spent(actors[p])));
    assert(has_player(once) && once[p].is_player);
    assert(!side_done(once, true));
    assert(has_player(twice) && twice[p].is_player);
    assert(side_done(twice, true)) by {
        assert forall|i: int| 0 <= i < twice.len() && #[trigger] twice[i].is_player == true implies
            twice[i].turn.actions_remaining == 0 by {
            if i != p {
                assert(!actors[i].is_player);
            }
        }
    }
    assert(later[p].is_player);
    assert(later[p].turn.actions_remaining == 2);
    assert(side_done(later, false));
}

} // verus!
