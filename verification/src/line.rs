//! A small concrete game for the engine: three cells in a line. The two
//! players alternately claim an empty cell; whoever first owns two adjacent
//! cells wins, and a full board without an adjacent pair is a draw. A game
//! lasts at most three plies.

use vstd::prelude::*;
use crate::fixed::{BIAS_MAX, DEFAULT_BIAS};
use crate::game::{Game, Status};

verus! {

/// The cell marks: `0` is empty, `1` and `2` the two players; `turn` is the
/// player about to move.
#[derive(Clone, Copy, Debug)]
pub struct LineGame {
    pub c0: u8,
    pub c1: u8,
    pub c2: u8,
    pub turn: u8,
}

/// The opponent of player `p`.
pub open spec fn opponent(p: u8) -> u8 {
    if p == 1 {
        2u8
    } else {
        1u8
    }
}

/// Whether player `p` owns two adjacent cells of `s`.
pub open spec fn has_pair(s: LineGame, p: u8) -> bool {
    ||| s.c0 == p && s.c1 == p
    ||| s.c1 == p && s.c2 == p
}

/// Whether every cell of `s` is claimed.
pub open spec fn is_full(s: LineGame) -> bool {
    s.c0 != 0 && s.c1 != 0 && s.c2 != 0
}

/// The mark the player to move leaves on the board: a `turn` field holding
/// anything but `1` plays as player `2`, so a mark is never the empty `0`.
pub open spec fn mark_of(s: LineGame) -> u8 {
    if s.turn == 1 {
        1u8
    } else {
        2u8
    }
}

/// The state after the player to move claims cell `a`.
pub open spec fn line_next(s: LineGame, a: u8) -> LineGame {
    LineGame {
        c0: if a == 0 { mark_of(s) } else { s.c0 },
        c1: if a == 1 { mark_of(s) } else { s.c1 },
        c2: if a == 2 { mark_of(s) } else { s.c2 },
        turn: opponent(s.turn),
    }
}

impl LineGame {
    /// The empty board, with player 1 to move.
    pub fn new() -> (r: LineGame)
        ensures
            r == (LineGame { c0: 0u8, c1: 0u8, c2: 0u8, turn: 1u8 }),
    {
        LineGame { c0: 0, c1: 0, c2: 0, turn: 1 }
    }
}

/// The legal actions of any board are exactly the indices of its empty
/// cells while the game is unfinished — so they are non-empty if and only
/// if the game goes on, and every one of them names a claimable cell.
pub proof fn lemma_line_actions(s: LineGame)
    ensures
        (s.spec_status() == Status::Unfinished) <==> s.spec_actions().len() > 0,
        forall|i: int| 0 <= i < s.spec_actions().len()
            ==> (#[trigger] s.spec_actions()[i] == 0 ==> s.c0 == 0)
                && (s.spec_actions()[i] == 1 ==> s.c1 == 0)
                && (s.spec_actions()[i] == 2 ==> s.c2 == 0)
                && s.spec_actions()[i] <= 2,
{
}

impl Game for LineGame {
    /// An action is the index of the cell to claim: 0, 1 or 2.
    type Action = u8;

    open spec fn height(&self) -> nat {
        ((if self.c0 == 0 { 1int } else { 0int }) + (if self.c1 == 0 { 1int } else { 0int })
            + (if self.c2 == 0 { 1int } else { 0int })) as nat
    }

    open spec fn spec_status(&self) -> Status {
        if has_pair(*self, self.turn) {
            Status::Win
        } else if has_pair(*self, opponent(self.turn)) {
            Status::Lose
        } else if is_full(*self) {
            Status::Draw
        } else {
            Status::Unfinished
        }
    }

    open spec fn spec_actions(&self) -> Seq<u8> {
        if self.spec_status() != Status::Unfinished {
            Seq::empty()
        } else if self.c0 == 0 && self.c1 == 0 && self.c2 == 0 {
            seq![0u8, 1u8, 2u8]
        } else if self.c0 == 0 && self.c1 == 0 {
            seq![0u8, 1u8]
        } else if self.c0 == 0 && self.c2 == 0 {
            seq![0u8, 2u8]
        } else if self.c1 == 0 && self.c2 == 0 {
            seq![1u8, 2u8]
        } else if self.c0 == 0 {
            seq![0u8]
        } else if self.c1 == 0 {
            seq![1u8]
        } else {
            seq![2u8]
        }
    }

    open spec fn spec_next(&self, a: u8) -> LineGame {
        line_next(*self, a)
    }

    open spec fn spec_bias(&self) -> u64 {
        DEFAULT_BIAS
    }

    fn status(&self) -> (r: Status) {
        let me = self.turn;
        let other = if me == 1 { 2 } else { 1 };
        if (self.c0 == me && self.c1 == me) || (self.c1 == me && self.c2 == me) {
            Status::Win
        } else if (self.c0 == other && self.c1 == other)
            || (self.c1 == other && self.c2 == other) {
            Status::Lose
        } else if self.c0 != 0 && self.c1 != 0 && self.c2 != 0 {
            Status::Draw
        } else {
            Status::Unfinished
        }
    }

    fn next_actions(&self) -> (r: Vec<u8>) {
        let mut r: Vec<u8> = Vec::new();
        if matches!(self.status(), Status::Unfinished) {
            if self.c0 == 0 {
                r.push(0);
            }
            if self.c1 == 0 {
                r.push(1);
            }
            if self.c2 == 0 {
                r.push(2);
            }
        }
        proof {
            assert(r@ =~= self.spec_actions());
        }
        r
    }

    fn next(&self, a: &u8) -> (r: LineGame) {
        proof {
            let acts = self.spec_actions();
            assert(acts.contains(*a));
            let i = choose|i: int| 0 <= i < acts.len() && acts[i] == *a;
            assert(acts[i] == *a);
            assert(*a == 0 ==> self.c0 == 0);
            assert(*a == 1 ==> self.c1 == 0);
            assert(*a == 2 ==> self.c2 == 0);
            assert(self.c0 == 0 || self.c1 == 0 || self.c2 == 0);
        }
        let a = *a;
        let m: u8 = if self.turn == 1 { 1 } else { 2 };
        LineGame {
            c0: if a == 0 { m } else { self.c0 },
            c1: if a == 1 { m } else { self.c1 },
            c2: if a == 2 { m } else { self.c2 },
            turn: if self.turn == 1 { 2 } else { 1 },
        }
    }

    fn action_eq(a: &u8, b: &u8) -> (r: bool) {
        *a == *b
    }

    fn bias_const(&self) -> (r: u64) {
        proof {
            assert(DEFAULT_BIAS <= BIAS_MAX);
        }
        DEFAULT_BIAS
    }
}

} // verus!
