//! The game contract the engine searches over, and the terminal status of a
//! position.

use vstd::prelude::*;
use crate::fixed::BIAS_MAX;

verus! {

/// End status of a position, judged for the player about to move (not for
/// the player who just moved).
#[derive(Eq, PartialEq, Copy, Clone, Hash, Debug, Structural)]
pub enum Status {
    Unfinished,
    Win,
    Lose,
    Draw,
}

impl Default for Status {
    fn default() -> (r: Status)
        ensures
            r == Status::Unfinished,
    {
        Status::Unfinished
    }
}

/// The terminal value, in half-points, credited to the player who moved
/// *into* a position with the given status: the mover scores a full win (2)
/// when the player now to move has lost, half (1) on a draw, nothing (0)
/// when the player now to move has won.
pub open spec fn leaf_value(s: Status) -> u64 {
    match s {
        Status::Win => 0,
        Status::Draw => 1,
        Status::Lose => 2,
        Status::Unfinished => 0,
    }
}

/// A sequential two-player zero-sum perfect-information game.
///
/// A state is an immutable value; applying an action produces a new state.
/// The specification side gives the engine a mathematical account of the
/// game: the executable methods are tied to it by their contracts, which
/// every implementation must prove.
pub trait Game: Sized {
    /// The identifier of a legal move from a given state.
    type Action;

    /// A bound on the number of plies the game can still last from this
    /// state; applying a legal action strictly decreases it.
    spec fn height(&self) -> nat;

    /// The end status of this state, for the player about to move.
    spec fn spec_status(&self) -> Status;

    /// All legal actions of this state, in a fixed order. A finished state
    /// has none; an unfinished state has at least one.
    spec fn spec_actions(&self) -> Seq<Self::Action>;

    /// The state an action leads to.
    spec fn spec_next(&self, a: Self::Action) -> Self;

    /// The exploration constant this state plays with, in units of
    /// `1/SCALE`.
    spec fn spec_bias(&self) -> u64;

    /// Returns the end status for the current player.
    fn status(&self) -> (r: Status)
        ensures
            r == self.spec_status(),
    ;

    /// Returns all legal actions: non-empty exactly on unfinished states.
    fn next_actions(&self) -> (r: Vec<Self::Action>)
        ensures
            r@ == self.spec_actions(),
            self.spec_status() == Status::Unfinished <==> r@.len() > 0,
    ;

    /// Returns the next state after the action is applied.
    fn next(&self, a: &Self::Action) -> (r: Self)
        requires
            self.spec_actions().contains(*a),
        ensures
            r == self.spec_next(*a),
            r.height() < self.height(),
    ;

    /// Decides equality of two actions.
    fn action_eq(a: &Self::Action, b: &Self::Action) -> (r: bool)
        ensures
            r == (a == b),
    ;

    /// Returns the exploration weight for the selection priority.
    fn bias_const(&self) -> (r: u64)
        ensures
            r == self.spec_bias(),
            r <= BIAS_MAX,
    ;
}

} // verus!
