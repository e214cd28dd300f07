//! The search engine: a root wrapper that owns the live game state, a root
//! visit counter and the depth-1 children, drives playouts, commits real
//! moves and extracts the answer.

use vstd::prelude::*;
use vstd::pervasive::unreached;
use crate::fixed::VISITS_MAX;
use crate::game::{Game, Status};
use crate::tree::{Node, Children, sum_visits, spec_expanded, spec_select, select_best,
    play_out_rel, find_last, lemma_find_last, lemma_sum_visits_bound, lemma_sum_visits_update,
    lemma_sum_visits_fresh, expand_list};

verus! {

/// Upper confidence bound 1 applied to tree search.
///
/// The root is a node without a win accumulator: nothing above it ever
/// receives a backpropagated value.
pub struct Uct<G: Game> {
    pub game: G,
    pub visits: u64,
    pub children: Vec<Node<G>>,
}

/// The left-to-right scan for the most visited child from position `i`,
/// with `best` the index of the largest counter seen so far; ties keep the
/// earliest child.
pub open spec fn spec_most_visited<G: Game>(cs: Seq<Node<G>>, best: int, i: int) -> int
    decreases cs.len() - i when 0 <= i
{
    if i >= cs.len() {
        best
    } else if cs[i].visits > cs[best].visits {
        spec_most_visited(cs, i, i + 1)
    } else {
        spec_most_visited(cs, best, i + 1)
    }
}

/// Whether `a` has the strictly greater win rate `wins / visits`, decided by
/// cross-multiplication.
pub open spec fn ratio_gt<G: Game>(a: Node<G>, b: Node<G>) -> bool {
    a.wins * b.visits > b.wins * a.visits
}

/// The left-to-right scan for the visited child of greatest win rate from
/// position `i`: unvisited children are skipped, ties keep the earliest
/// child, and `best == -1` means none has been visited so far.
pub open spec fn spec_best_action<G: Game>(cs: Seq<Node<G>>, best: int, i: int) -> int
    decreases cs.len() - i when 0 <= i
{
    if i >= cs.len() {
        best
    } else if cs[i].visits > 0 && (best == -1 || ratio_gt(cs[i], cs[best])) {
        spec_best_action(cs, i, i + 1)
    } else {
        spec_best_action(cs, best, i + 1)
    }
}

pub proof fn lemma_best_action_in_range<G: Game>(cs: Seq<Node<G>>, best: int, i: int)
    requires
        -1 <= best < cs.len(),
        0 <= i,
    ensures
        -1 <= spec_best_action(cs, best, i) < cs.len(),
        spec_best_action(cs, best, i) == -1 ==> best == -1,
    decreases cs.len() - i
{
    if i < cs.len() {
        if cs[i].visits > 0 && (best == -1 || ratio_gt(cs[i], cs[best])) {
            lemma_best_action_in_range(cs, i, i + 1);
        } else {
            lemma_best_action_in_range(cs, best, i + 1);
        }
    }
}

/// The first playout on a fresh engine, whose effect `Uct::play_out`
/// describes by `cs`, `ds` and `sel`, lands on the first child: afterwards
/// exactly that depth-1 child has been visited, once, and its win
/// accumulator holds just the value the playout returned to it.
pub proof fn lemma_first_playout<G: Game>(cs: Seq<Node<G>>, ds: Seq<Node<G>>, sel: int)
    requires
        cs.len() > 0,
        forall|i: int| 0 <= i < cs.len() ==> (#[trigger] cs[i]).visits == 0,
        forall|i: int| 0 <= i < cs.len() ==> (#[trigger] cs[i]).wins == 0,
        sel == spec_select(cs, 1),
        0 <= sel < cs.len(),
        ds == cs.update(sel, ds[sel]),
        play_out_rel(cs[sel], ds[sel], (ds[sel].wins - cs[sel].wins) as u64),
    ensures
        sel == 0,
        ds[0].visits == 1,
        ds[0].wins <= 2,
        forall|j: int| 1 <= j < ds.len() ==> (#[trigger] ds[j]).visits == 0,
{
    crate::tree::lemma_select_first_unvisited(cs, 1, 0);
    assert forall|j: int| 1 <= j < ds.len() implies (#[trigger] ds[j]).visits == 0 by {
        assert(ds[j] == cs[j]);
    }
}

/// Two 64-bit counters multiply without reaching the 128-bit limit.
proof fn lemma_mul_u64_fits(a: u64, b: u64)
    ensures
        a * b <= 0xFFFFFFFFFFFFFFFFu64 * 0xFFFFFFFFFFFFFFFFu64,
{
    assert(a * b <= 0xFFFFFFFFFFFFFFFFu64 * 0xFFFFFFFFFFFFFFFFu64) by (nonlinear_arith)
        requires
            a <= 0xFFFFFFFFFFFFFFFFu64,
            b <= 0xFFFFFFFFFFFFFFFFu64,
    ;
}

impl<G: Game> Uct<G> {
    /// Well-formedness of the engine: the children mirror the legal actions
    /// of the live game, in order, one ply below it, and their visit
    /// counters sum to the root counter.
    pub open spec fn wf(self) -> bool {
        &&& self.game.spec_status() == Status::Unfinished
            ==> self.children@.len() == self.game.spec_actions().len()
                && self.children@.len() > 0
        &&& self.game.spec_status() != Status::Unfinished ==> self.children@.len() == 0
        &&& self.children@.len() > 0 ==> sum_visits(self.children@) == self.visits
        &&& forall|i: int| 0 <= i < self.children@.len()
            ==> (#[trigger] self.children@[i]).prev_act == self.game.spec_actions()[i]
                && self.children@[i].game
                    == self.game.spec_next(self.game.spec_actions()[i])
                && self.children@[i].game.height() < self.game.height()
                && self.children@[i].wf()
    }

    /// Creates an engine rooted at `game`, with one unexplored child per
    /// legal action and no visits yet. `is_current_player` records which
    /// side the caller searches for; the engine itself is symmetric and
    /// does not read it.
    pub fn new(game: G, is_current_player: bool) -> (r: Uct<G>)
        ensures
            r.wf(),
            r.game == game,
            r.visits == 0,
            r.children@ == spec_expanded(game),
    {
        let children = expand_list(&game);
        proof {
            assert forall|i: int| 0 <= i < children@.len() implies
                #[trigger] children@[i].visits == 0 by {
                assert(children@[i] == spec_expanded(game)[i]);
            }
            lemma_sum_visits_fresh(children@);
        }
        Uct { children, game, visits: 0 }
    }

    /// Returns the number of times the root has been visited.
    pub fn visits(&self) -> (r: u64)
        ensures
            r == self.visits,
    {
        self.visits
    }

    /// One playout: increments the root counter, and below an unfinished
    /// root plays out the UCB1-selected depth-1 child, discarding the value
    /// it returns (the root backpropagates to nobody). At a finished root
    /// only the counter moves.
    pub fn play_out(&mut self)
        requires
            old(self).wf(),
            old(self).visits < VISITS_MAX,
        ensures
            final(self).wf(),
            final(self).game == old(self).game,
            final(self).visits == old(self).visits + 1,
            old(self).children@.len() == 0 ==> final(self).children@ == old(self).children@,
            old(self).children@.len() > 0 ==> ({
                let cs = old(self).children@;
                let sel = spec_select(cs, old(self).visits + 1);
                let ds = final(self).children@;
                &&& 0 <= sel < cs.len()
                &&& ds == cs.update(sel, ds[sel])
                &&& play_out_rel(cs[sel], ds[sel], (ds[sel].wins - cs[sel].wins) as u64)
            }),
    {
        self.visits = self.visits + 1;
        if self.children.len() > 0 {
            let ghost cs = self.children@;
            proof {
                assert forall|i: int| 0 <= i < cs.len() implies
                    (#[trigger] cs[i]).wins <= 2 * cs[i].visits by {
                    assert(cs[i].wf());
                }
            }
            let idx = select_best(&self.children, self.visits);
            proof {
                lemma_sum_visits_bound(cs, idx as int);
            }
            let _win = self.children[idx].play_out();
            proof {
                lemma_sum_visits_update(cs, idx as int, self.children@[idx as int]);
            }
        }
    }

    /// Commits a real move: promotes the child recording `action` to the
    /// root, keeping its game, visit counter and (forcing expansion if it
    /// was never explored) its children, and discards every sibling
    /// subtree. The action must be one of the current children's; a
    /// finished root has none to commit.
    pub fn next(&mut self, action: G::Action)
        requires
            old(self).wf(),
            old(self).children@.len() > 0,
            exists|i: int| 0 <= i < old(self).children@.len()
                && (#[trigger] old(self).children@[i]).prev_act == action,
        ensures
            final(self).wf(),
            ({
                let c = old(self).children@[find_last(old(self).children@, action)];
                &&& final(self).game == c.game
                &&& final(self).visits == c.visits
                &&& match c.children {
                    Children::Expanded(gs) => final(self).children == gs,
                    Children::Leaf(_) => final(self).children@.len() == 0,
                    Children::NotExpanded => {
                        if c.game.spec_status() == Status::Unfinished {
                            final(self).children@ == spec_expanded(c.game)
                        } else {
                            final(self).children@.len() == 0
                        }
                    },
                }
            }),
    {
        let ghost cs = self.children@;
        proof {
            lemma_find_last(cs, action);
        }
        let mut k: usize = 0;
        let mut found = false;
        let mut i: usize = 0;
        while i < self.children.len()
            invariant
                0 <= i <= cs.len(),
                self.children@ == cs,
                found ==> 0 <= (k as int) < (i as int),
                found ==> k as int == find_last(cs.take(i as int), action),
                !found ==> find_last(cs.take(i as int), action) == -1,
            decreases cs.len() - i
        {
            proof {
                assert(cs.take(i + 1).drop_last() =~= cs.take(i as int));
                assert(cs.take(i + 1)[i as int] == cs[i as int]);
            }
            if G::action_eq(&self.children[i].prev_act, &action) {
                k = i;
                found = true;
            }
            i += 1;
        }
        proof {
            assert(cs.take(cs.len() as int) =~= cs);
            if !found {
                assert(false);
            }
        }
        let mut node = self.children.remove(k);
        let ghost c = cs[k as int];
        self.visits = node.visits;
        node.children.expand(&node.game);
        self.children = match node.children {
            Children::NotExpanded => unreached(),
            Children::Expanded(v) => v,
            Children::Leaf(_) => Vec::new(),
        };
        self.game = node.game;
        proof {
            if c.children is NotExpanded && c.game.spec_status() == Status::Unfinished {
                assert forall|j: int| 0 <= j < self.children@.len() implies
                    #[trigger] self.children@[j].visits == 0 by {
                    assert(self.children@[j] == spec_expanded(c.game)[j]);
                }
                lemma_sum_visits_fresh(self.children@);
            }
        }
    }

    /// Returns the action of the most visited child, the robust answer of
    /// the search; ties keep the earliest child. A finished root has no
    /// answer to give.
    pub fn most_visited(&self) -> (r: &G::Action)
        requires
            self.children@.len() > 0,
        ensures
            ({
                let m = spec_most_visited(self.children@, 0, 1);
                &&& 0 <= m < self.children@.len()
                &&& *r == self.children@[m].prev_act
            }),
    {
        let ghost cs = self.children@;
        let mut best: usize = 0;
        let mut max_visits: u64 = self.children[0].visits;
        let mut i: usize = 1;
        while i < self.children.len()
            invariant
                1 <= i <= cs.len(),
                0 <= (best as int) < (i as int),
                self.children@ == cs,
                max_visits == cs[best as int].visits,
                spec_most_visited(cs, 0, 1) == spec_most_visited(cs, best as int, i as int),
            decreases cs.len() - i
        {
            if self.children[i].visits > max_visits {
                best = i;
                max_visits = self.children[i].visits;
            }
            i += 1;
        }
        &self.children[best].prev_act
    }

    /// Returns the action of the visited child with the greatest win rate
    /// `wins / visits`, skipping unvisited children; ties keep the earliest
    /// child, and if no child has been visited the first child stands in. A
    /// finished root has no answer to give.
    pub fn best_action(&self) -> (r: &G::Action)
        requires
            self.children@.len() > 0,
        ensures
            ({
                let b = spec_best_action(self.children@, -1, 0);
                &&& -1 <= b < self.children@.len()
                &&& b >= 0 ==> *r == self.children@[b].prev_act
                &&& b == -1 ==> *r == self.children@[0].prev_act
            }),
    {
        let ghost cs = self.children@;
        proof {
            lemma_best_action_in_range(cs, -1, 0);
        }
        let mut best: usize = 0;
        let mut has_best = false;
        let mut i: usize = 0;
        while i < self.children.len()
            invariant
                0 <= i <= cs.len(),
                self.children@ == cs,
                has_best ==> 0 <= (best as int) < (i as int) && cs[best as int].visits > 0,
                !has_best ==> best == 0,
                spec_best_action(cs, -1, 0) == spec_best_action(
                    cs,
                    if has_best { best as int } else { -1 },
                    i as int,
                ),
            decreases cs.len() - i
        {
            let child = &self.children[i];
            if child.visits > 0 {
                let take = if !has_best {
                    true
                } else {
                    let b = &self.children[best];
                    proof {
                        lemma_mul_u64_fits(child.wins, b.visits);
                        lemma_mul_u64_fits(b.wins, child.visits);
                    }
                    (child.wins as u128) * (b.visits as u128)
                        > (b.wins as u128) * (child.visits as u128)
                };
                if take {
                    best = i;
                    has_best = true;
                }
            }
            i += 1;
        }
        &self.children[best].prev_act
    }
}

} // verus!
