//! The search tree: nodes with visit/win statistics and lazily expanded
//! children.

use vstd::prelude::*;
use crate::fixed::{spec_priority, priority_value, VISITS_MAX};
use crate::game::{Game, Status, leaf_value};

verus! {

/// The children of a node: not yet explored, explored with one child per
/// legal action, or a terminal leaf holding the win value in half-points.
/// The transition is one-way: `NotExpanded` becomes `Expanded` or `Leaf`
/// and never reverts.
pub enum Children<G: Game> {
    NotExpanded,
    Expanded(Vec<Node<G>>),
    Leaf(u64),
}

/// A tree vertex: a game state, the action that produced it, its visit
/// counter, its accumulated wins in half-points, and its children.
pub struct Node<G: Game> {
    pub game: G,
    pub prev_act: G::Action,
    pub visits: u64,
    pub wins: u64,
    pub children: Children<G>,
}

/// The node a first visit creates: one ply below `game`, no statistics yet.
pub open spec fn fresh_node<G: Game>(game: G, a: G::Action) -> Node<G> {
    Node {
        game: game.spec_next(a),
        prev_act: a,
        visits: 0,
        wins: 0,
        children: Children::NotExpanded,
    }
}

/// One fresh child per legal action of `game`, in action order.
pub open spec fn spec_expanded<G: Game>(game: G) -> Seq<Node<G>> {
    game.spec_actions().map(|i: int, a: G::Action| fresh_node(game, a))
}

/// The sum of the visit counters of a child list.
pub open spec fn sum_visits<G: Game>(s: Seq<Node<G>>) -> int
    decreases s.len()
{
    if s.len() == 0 {
        0
    } else {
        s[0].visits + sum_visits(s.drop_first())
    }
}

pub proof fn lemma_sum_visits_bound<G: Game>(s: Seq<Node<G>>, i: int)
    requires
        0 <= i < s.len(),
    ensures
        s[i].visits <= sum_visits(s),
        sum_visits(s) >= 0,
    decreases s.len()
{
    if i == 0 {
        lemma_sum_visits_nonneg(s.drop_first());
    } else {
        lemma_sum_visits_bound(s.drop_first(), i - 1);
    }
}

pub proof fn lemma_sum_visits_nonneg<G: Game>(s: Seq<Node<G>>)
    ensures
        sum_visits(s) >= 0,
    decreases s.len()
{
    if s.len() > 0 {
        lemma_sum_visits_nonneg(s.drop_first());
    }
}

/// Replacing one node changes the sum by the difference of its counter.
pub proof fn lemma_sum_visits_update<G: Game>(s: Seq<Node<G>>, i: int, n: Node<G>)
    requires
        0 <= i < s.len(),
    ensures
        sum_visits(s.update(i, n)) == sum_visits(s) - s[i].visits + n.visits,
    decreases s.len()
{
    if i == 0 {
        assert(s.update(0, n).drop_first() =~= s.drop_first());
    } else {
        assert(s.update(i, n).drop_first() =~= s.drop_first().update(i - 1, n));
        lemma_sum_visits_update(s.drop_first(), i - 1, n);
    }
}

/// A child list of fresh nodes has no visits.
pub proof fn lemma_sum_visits_fresh<G: Game>(s: Seq<Node<G>>)
    requires
        forall|i: int| 0 <= i < s.len() ==> #[trigger] s[i].visits == 0,
    ensures
        sum_visits(s) == 0,
    decreases s.len()
{
    if s.len() > 0 {
        assert(forall|i: int| 0 <= i < s.drop_first().len()
            ==> #[trigger] s.drop_first()[i].visits == 0);
        lemma_sum_visits_fresh(s.drop_first());
    }
}

impl<G: Game> Node<G> {
    /// Well-formedness of a node and its whole subtree.
    pub open spec fn wf(self) -> bool
        decreases self
    {
        &&& self.wins <= 2 * self.visits
        &&& match self.children {
            Children::NotExpanded => self.visits == 0 && self.wins == 0,
            Children::Leaf(v) => {
                &&& self.game.spec_status() != Status::Unfinished
                &&& v == leaf_value(self.game.spec_status())
            },
            Children::Expanded(cs) => {
                &&& self.game.spec_status() == Status::Unfinished
                &&& cs@.len() == self.game.spec_actions().len()
                &&& cs@.len() > 0
                &&& sum_visits(cs@) == self.visits
                &&& forall|i: int| 0 <= i < cs@.len()
                    ==> (#[trigger] cs@[i]).prev_act == self.game.spec_actions()[i]
                        && cs@[i].game == self.game.spec_next(self.game.spec_actions()[i])
                        && cs@[i].game.height() < self.game.height()
                        && cs@[i].wf()
            },
        }
    }

    /// Creates an unexplored node for `game`, reached by `prev_act`.
    pub fn new(game: G, prev_act: G::Action) -> (r: Node<G>)
        ensures
            r == (Node {
                game,
                prev_act,
                visits: 0u64,
                wins: 0u64,
                children: Children::<G>::NotExpanded,
            }),
    {
        Node { game, prev_act, wins: 0, visits: 0, children: Children::NotExpanded }
    }

    /// Creates a terminal node for `game` holding the win value `win`.
    pub fn leaf(game: G, prev_act: G::Action, win: u64) -> (r: Node<G>)
        ensures
            r == (Node {
                game,
                prev_act,
                visits: 0u64,
                wins: 0u64,
                children: Children::<G>::Leaf(win),
            }),
    {
        Node { game, prev_act, wins: 0, visits: 0, children: Children::Leaf(win) }
    }
}

/// The selection priority of `n` under a parent visited `pv` times, when
/// `n` has been visited at least once.
pub open spec fn node_priority<G: Game>(n: Node<G>, pv: int) -> int {
    spec_priority(n.wins as int, n.visits as int, pv, n.game.spec_bias() as int)
}

/// The left-to-right UCB1 scan from position `i`, with `best` the index of
/// the greatest finite priority seen so far: an unvisited child (infinite
/// priority) is taken at once; otherwise a strictly greater finite priority
/// displaces `best`, so ties keep the earliest child.
pub open spec fn spec_select_from<G: Game>(cs: Seq<Node<G>>, pv: int, best: int, i: int) -> int
    decreases cs.len() - i when 0 <= i
{
    if i >= cs.len() {
        best
    } else if cs[i].visits == 0 {
        i
    } else if node_priority(cs[i], pv) > node_priority(cs[best], pv) {
        spec_select_from(cs, pv, i, i + 1)
    } else {
        spec_select_from(cs, pv, best, i + 1)
    }
}

/// The index `select_best` picks from a non-empty child list.
pub open spec fn spec_select<G: Game>(cs: Seq<Node<G>>, pv: int) -> int {
    if cs[0].visits == 0 {
        0
    } else {
        spec_select_from(cs, pv, 0, 1)
    }
}

/// Selection favours the first unvisited child: if everything before `j` has
/// been visited and `j` has not, `j` is picked.
pub proof fn lemma_select_first_unvisited<G: Game>(cs: Seq<Node<G>>, pv: int, j: int)
    requires
        0 <= j < cs.len(),
        cs[j].visits == 0,
        forall|i: int| 0 <= i < j ==> #[trigger] cs[i].visits > 0,
    ensures
        spec_select(cs, pv) == j,
{
    if j > 0 {
        assert forall|best: int, i: int| 0 <= best && 1 <= i <= j implies
            spec_select_from(cs, pv, best, i) == j by {
            lemma_select_from_reaches(cs, pv, best, i, j);
        }
    }
}

proof fn lemma_select_from_reaches<G: Game>(cs: Seq<Node<G>>, pv: int, best: int, i: int, j: int)
    requires
        0 <= best,
        0 <= j < cs.len(),
        cs[j].visits == 0,
        forall|i0: int| 0 <= i0 < j ==> #[trigger] cs[i0].visits > 0,
        1 <= i <= j,
    ensures
        spec_select_from(cs, pv, best, i) == j,
    decreases cs.len() - i
{
    if i < j {
        if node_priority(cs[i], pv) > node_priority(cs[best], pv) {
            lemma_select_from_reaches(cs, pv, i, i + 1, j);
        } else {
            lemma_select_from_reaches(cs, pv, best, i + 1, j);
        }
    }
}

impl<G: Game> Node<G> {
    /// The UCB1 priority of this node under a parent visited `parent_visits`
    /// times: none (infinite) exactly when the node is unvisited, else the
    /// finite fixed-point value.
    pub fn priority(&self, parent_visits: u64) -> (r: Option<u64>)
        requires
            self.wins <= 2 * self.visits,
            1 <= parent_visits,
        ensures
            r is None <==> self.visits == 0,
            r is Some ==> r->Some_0 == node_priority(*self, parent_visits as int),
    {
        if self.visits == 0 {
            None
        } else {
            Some(priority_value(self.wins, self.visits, parent_visits, self.game.bias_const()))
        }
    }
}

/// Scans a non-empty child list and returns the index `spec_select` names:
/// the first unvisited child, or failing that the first child of greatest
/// finite priority.
pub fn select_best<G: Game>(cs: &Vec<Node<G>>, parent_visits: u64) -> (idx: usize)
    requires
        cs@.len() > 0,
        1 <= parent_visits,
        forall|i: int| 0 <= i < cs@.len() ==> (#[trigger] cs@[i]).wins <= 2 * cs@[i].visits,
    ensures
        idx < cs@.len(),
        idx == spec_select(cs@, parent_visits as int),
{
    let first = &cs[0];
    match first.priority(parent_visits) {
        None => 0,
        Some(p0) => {
            let mut best: usize = 0;
            let mut max_priority: u64 = p0;
            let mut i: usize = 1;
            while i < cs.len()
                invariant
                    1 <= i <= cs@.len(),
                    0 <= best < i,
                    cs@[best as int].visits > 0,
                    max_priority == node_priority(cs@[best as int], parent_visits as int),
                    spec_select(cs@, parent_visits as int)
                        == spec_select_from(cs@, parent_visits as int, best as int, i as int),
                    1 <= parent_visits,
                    forall|k: int| 0 <= k < cs@.len()
                        ==> (#[trigger] cs@[k]).wins <= 2 * cs@[k].visits,
                decreases cs@.len() - i
            {
                match cs[i].priority(parent_visits) {
                    None => {
                        return i;
                    },
                    Some(p) => {
                        if p > max_priority {
                            best = i;
                            max_priority = p;
                        }
                    },
                }
                i += 1;
            }
            best
        },
    }
}

/// What one expansion step does to a `Children` value: nothing if it has
/// already been explored; otherwise it becomes a `Leaf` carrying the
/// terminal value of a finished state, or one fresh child per legal action
/// of an unfinished one.
pub open spec fn expand_rel<G: Game>(game: G, pre: Children<G>, post: Children<G>) -> bool {
    match pre {
        Children::NotExpanded => {
            if game.spec_status() == Status::Unfinished {
                match post {
                    Children::Expanded(cs) => cs@ == spec_expanded(game),
                    _ => false,
                }
            } else {
                post == Children::Leaf::<G>(leaf_value(game.spec_status()))
            }
        },
        _ => post == pre,
    }
}

/// Expansion is idempotent: a second expansion of the same node leaves the
/// children exactly as the first left them, whatever they became.
pub proof fn lemma_expand_idempotent<G: Game>(
    game: G,
    c0: Children<G>,
    c1: Children<G>,
    c2: Children<G>,
)
    requires
        expand_rel(game, c0, c1),
        expand_rel(game, c1, c2),
    ensures
        c2 == c1,
{
}

/// Builds one fresh child per legal action of `game`, in action order.
pub(crate) fn expand_list<G: Game>(game: &G) -> (r: Vec<Node<G>>)
    ensures
        r@ == spec_expanded(*game),
        forall|i: int| 0 <= i < r@.len() ==> #[trigger] r@[i].game.height() < game.height(),
        game.spec_status() == Status::Unfinished <==> r@.len() > 0,
{
    let mut actions = game.next_actions();
    let ghost all_actions = actions@;
    let mut r: Vec<Node<G>> = Vec::new();
    while actions.len() > 0
        invariant
            all_actions == game.spec_actions(),
            r@.len() + actions@.len() == all_actions.len(),
            actions@ == all_actions.skip(r@.len() as int),
            forall|i: int| 0 <= i < r@.len()
                ==> #[trigger] r@[i] == fresh_node(*game, all_actions[i])
                    && r@[i].game.height() < game.height(),
        decreases actions@.len()
    {
        let ghost k = r@.len() as int;
        let a = actions.remove(0);
        assert(a == all_actions[k]);
        assert(game.spec_actions().contains(a)) by {
            assert(game.spec_actions()[k] == a);
        }
        let child = Node::new(game.next(&a), a);
        r.push(child);
        proof {
            assert(actions@ =~= all_actions.skip(r@.len() as int));
        }
    }
    proof {
        assert(r@ =~= spec_expanded(*game));
    }
    r
}

/// What one playout does to a node: the visit counter rises by one, the
/// children are expanded if they were not, the returned value `win` (in
/// half-points, for the player who moved into this node) is added to the
/// win accumulator, and
/// - at a leaf, `win` is the leaf's terminal value;
/// - below an expanded node, the UCB1-selected child is played out
///   recursively and `win` is the complement `2 - cw` of the child's
///   return, the negamax sign flip.
/// A playout at a node with unfinished game descends into these children:
/// the ones it already has, or, on a first visit, the fresh expansion.
pub open spec fn start_children<G: Game>(pre: Node<G>) -> Seq<Node<G>> {
    match pre.children {
        Children::NotExpanded => spec_expanded(pre.game),
        Children::Expanded(cs) => cs@,
        Children::Leaf(_) => Seq::empty(),
    }
}

pub open spec fn play_out_rel<G: Game>(pre: Node<G>, post: Node<G>, win: u64) -> bool
    decreases pre.game.height()
{
    &&& post.game == pre.game
    &&& post.prev_act == pre.prev_act
    &&& post.visits == pre.visits + 1
    &&& post.wins == pre.wins + win
    &&& win <= 2
    &&& if pre.children is Leaf {
        win == pre.children->Leaf_0 && post.children == pre.children
    } else if pre.children is NotExpanded && pre.game.spec_status() != Status::Unfinished {
        &&& win == leaf_value(pre.game.spec_status())
        &&& post.children == Children::Leaf::<G>(win)
    } else {
        let cs = start_children(pre);
        let sel = spec_select(cs, pre.visits + 1);
        &&& cs.len() > 0
        &&& 0 <= sel < cs.len()
        &&& cs[sel].game.height() < pre.game.height()
        &&& match post.children {
            Children::Expanded(ds) => {
                &&& ds@ == cs.update(sel, ds@[sel])
                &&& play_out_rel(cs[sel], ds@[sel], (2 - win) as u64)
            },
            _ => false,
        }
    }
}

impl<G: Game> Node<G> {
    /// One playout through this node: increments the visit counter, expands
    /// the children on a first visit, recurses into the UCB1-selected child
    /// below an unfinished position, and returns the value backpropagated to
    /// the player who moved into this node, added to `wins`.
    pub fn play_out(&mut self) -> (win: u64)
        requires
            old(self).wf(),
            old(self).visits < VISITS_MAX,
        ensures
            final(self).wf(),
            win <= 2,
            play_out_rel(*old(self), *final(self), win),
        decreases old(self).game.height(),
    {
        proof {
            lemma_wf_children_sum(*old(self));
        }
        self.visits = self.visits + 1;
        let pv = self.visits;
        let ghost pre = *old(self);
        self.children.expand(&self.game);
        let ghost mid_children = self.children;
        let win: u64;
        let ghost mut gsel: int = 0;
        let ghost mut gcw: u64 = 0;
        let ghost mut gmid: Seq<Node<G>> = Seq::empty();
        match &mut self.children {
            Children::NotExpanded => {
                proof {
                    assert(false);
                }
                win = 0;
            },
            Children::Leaf(v) => {
                win = *v;
            },
            Children::Expanded(cs) => {
                let ghost mid = cs@;
                proof {
                    gmid = mid;
                    if pre.children is Leaf {
                        assert(false);
                    }
                    lemma_mid_children_wf(pre, mid);
                    if pre.children is NotExpanded {
                        lemma_sum_visits_fresh(mid);
                    }
                }
                let idx = select_best(cs, pv);
                proof {
                    lemma_sum_visits_bound(mid, idx as int);
                    gsel = idx as int;
                }
                let cw = cs[idx].play_out();
                win = 2 - cw;
                proof {
                    gcw = cw;
                    lemma_sum_visits_update(mid, idx as int, cs@[idx as int]);
                }
            },
        }
        self.wins = self.wins + win;
        proof {
            let post = *self;
            match pre.children {
                Children::Leaf(_) => {
                    assert(play_out_rel(pre, post, win));
                },
                _ => {
                    if pre.children is NotExpanded
                        && pre.game.spec_status() != Status::Unfinished {
                        assert(play_out_rel(pre, post, win));
                    } else {
                        assert(start_children(pre) == gmid);
                        match post.children {
                            Children::Expanded(ds) => {
                                assert(ds@ == gmid.update(gsel, ds@[gsel]));
                                assert(gmid.len() > 0);
                                assert(spec_select(gmid, pre.visits + 1) == gsel);
                                assert(gmid[gsel].game.height() < pre.game.height());
                                let sel = spec_select(gmid, pre.visits + 1);
                                assert(play_out_rel(gmid[sel], ds@[sel], (2 - win) as u64))
                                    by {
                                    assert((2 - win) as u64 == gcw);
                                }
                                assert forall|i: int| 0 <= i < ds@.len() implies
                                    (#[trigger] ds@[i]).prev_act
                                        == post.game.spec_actions()[i]
                                    && ds@[i].game
                                        == post.game.spec_next(post.game.spec_actions()[i])
                                    && ds@[i].game.height() < post.game.height()
                                    && ds@[i].wf() by {
                                    if i != gsel {
                                        assert(ds@[i] == gmid[i]);
                                    }
                                }
                            },
                            _ => {
                                assert(false);
                            },
                        }
                    }
                },
            }
            assert(play_out_rel(pre, post, win));
            assert(post.wf());
        }
        win
    }
}

/// Whether two nodes carry the same data: equal in every field, with their
/// subtrees compared element by element. (Two equal-looking trees may be
/// distinct values to the logic, since a `Vec` is not identified with its
/// contents; this relation is the intended equality.)
pub open spec fn node_agree<G: Game>(a: Node<G>, b: Node<G>) -> bool
    decreases a
{
    &&& a.game == b.game
    &&& a.prev_act == b.prev_act
    &&& a.visits == b.visits
    &&& a.wins == b.wins
    &&& match (a.children, b.children) {
        (Children::NotExpanded, Children::NotExpanded) => true,
        (Children::Leaf(x), Children::Leaf(y)) => x == y,
        (Children::Expanded(xs), Children::Expanded(ys)) => {
            &&& xs@.len() == ys@.len()
            &&& forall|i: int| 0 <= i < xs@.len() ==> node_agree(#[trigger] xs@[i], ys@[i])
        },
        _ => false,
    }
}

/// Every node carries the same data as itself.
pub proof fn lemma_node_agree_refl<G: Game>(a: Node<G>)
    ensures
        node_agree(a, a),
    decreases a
{
    match a.children {
        Children::Expanded(xs) => {
            assert forall|i: int| 0 <= i < xs@.len() implies
                node_agree(#[trigger] xs@[i], xs@[i]) by {
                lemma_node_agree_refl(xs@[i]);
            }
        },
        _ => {},
    }
}

/// A playout is deterministic: from one starting node the relation admits a
/// single outcome, so any two results agree in their data and in the value
/// they return.
pub proof fn lemma_play_out_deterministic<G: Game>(
    pre: Node<G>,
    p1: Node<G>,
    p2: Node<G>,
    w1: u64,
    w2: u64,
)
    requires
        play_out_rel(pre, p1, w1),
        play_out_rel(pre, p2, w2),
    ensures
        w1 == w2,
        node_agree(p1, p2),
    decreases pre.game.height(),
{
    if pre.children is Leaf {
        assert(p1.children == p2.children);
        lemma_node_agree_refl(p1);
    } else if pre.children is NotExpanded && pre.game.spec_status() != Status::Unfinished {
        lemma_node_agree_refl(p1);
        assert(node_agree(p1, p2));
    } else {
        let cs = start_children(pre);
        let sel = spec_select(cs, pre.visits + 1);
        match (p1.children, p2.children) {
            (Children::Expanded(d1), Children::Expanded(d2)) => {
                lemma_play_out_deterministic(
                    cs[sel],
                    d1@[sel],
                    d2@[sel],
                    (2 - w1) as u64,
                    (2 - w2) as u64,
                );
                assert forall|i: int| 0 <= i < d1@.len() implies
                    node_agree(#[trigger] d1@[i], d2@[i]) by {
                    if i != sel {
                        assert(d1@[i] == cs[i] && d2@[i] == cs[i]);
                        lemma_node_agree_refl(d1@[i]);
                    }
                }
            },
            _ => {
                assert(false);
            },
        }
    }
}

/// The index of the last child whose recorded action is `act`, or `-1` if
/// none records it. Legal actions are expected to be distinct, so "last"
/// only settles what happens if a game lists an action twice.
pub open spec fn find_last<G: Game>(cs: Seq<Node<G>>, act: G::Action) -> int
    decreases cs.len()
{
    if cs.len() == 0 {
        -1
    } else if cs[cs.len() - 1].prev_act == act {
        cs.len() - 1
    } else {
        find_last(cs.drop_last(), act)
    }
}

/// `find_last` names a child recording `act` exactly when one exists.
pub proof fn lemma_find_last<G: Game>(cs: Seq<Node<G>>, act: G::Action)
    ensures
        -1 <= find_last(cs, act) < cs.len(),
        (exists|i: int| 0 <= i < cs.len() && (#[trigger] cs[i]).prev_act == act)
            <==> (0 <= find_last(cs, act) < cs.len() && cs[find_last(cs, act)].prev_act == act),
        forall|j: int| find_last(cs, act) < j < cs.len() ==> (#[trigger] cs[j]).prev_act != act,
    decreases cs.len()
{
    if cs.len() > 0 && cs[cs.len() - 1].prev_act != act {
        lemma_find_last(cs.drop_last(), act);
        assert(cs.drop_last() =~= cs.subrange(0, cs.len() - 1));
        if exists|i: int| 0 <= i < cs.len() && (#[trigger] cs[i]).prev_act == act {
            let i = choose|i: int| 0 <= i < cs.len() && (#[trigger] cs[i]).prev_act == act;
            assert(cs.drop_last()[i] == cs[i]);
        }
        assert forall|j: int| find_last(cs, act) < j < cs.len() implies
            (#[trigger] cs[j]).prev_act != act by {
            if j < cs.len() - 1 {
                assert(cs.drop_last()[j] == cs[j]);
                assert(cs.drop_last()[j].prev_act != act);
            }
        }
    }
}

impl<G: Game> Node<G> {
    /// Consumes this node and returns the child that `act` leads to: the
    /// recorded child of an expanded node, or a fresh node one ply below an
    /// unexplored one. A finished node has no next position.
    pub fn next(self, act: G::Action) -> (r: Node<G>)
        requires
            self.wf(),
            !(self.children is Leaf),
            self.children is Expanded ==> exists|i: int|
                0 <= i < start_children(self).len()
                    && (#[trigger] start_children(self)[i]).prev_act == act,
            self.children is NotExpanded ==> self.game.spec_actions().contains(act),
        ensures
            match self.children {
                Children::NotExpanded => r == fresh_node(self.game, act),
                Children::Expanded(cs) => r == cs@[find_last(cs@, act)],
                Children::Leaf(_) => false,
            },
    {
        match self.children {
            Children::NotExpanded => Node::new(self.game.next(&act), act),
            Children::Leaf(_) => unreached(),
            Children::Expanded(children) => {
                proof {
                    lemma_find_last(children@, act);
                }
                let ghost cs = children@;
                let mut found: Option<Node<G>> = None;
                let mut rest = children;
                let ghost mut scanned: int = 0;
                let ghost mut gfl: int = -1;
                while rest.len() > 0
                    invariant
                        scanned + rest@.len() == cs.len(),
                        rest@ == cs.skip(scanned),
                        0 <= scanned <= cs.len(),
                        gfl == find_last(cs.take(scanned), act),
                        match found {
                            Some(n) => 0 <= gfl < scanned && n == cs[gfl],
                            None => gfl == -1,
                        },
                    decreases rest@.len()
                {
                    let child = rest.remove(0);
                    assert(child == cs[scanned]);
                    proof {
                        assert(cs.take(scanned + 1).drop_last() =~= cs.take(scanned));
                        assert(cs.take(scanned + 1)[scanned] == cs[scanned]);
                    }
                    if G::action_eq(&child.prev_act, &act) {
                        found = Some(child);
                        proof {
                            gfl = scanned;
                        }
                    }
                    proof {
                        scanned = scanned + 1;
                        assert(rest@ =~= cs.skip(scanned));
                    }
                }
                proof {
                    assert(cs.take(cs.len() as int) =~= cs);
                    lemma_find_last(cs, act);
                }
                match found {
                    Some(n) => n,
                    None => unreached(),
                }
            },
        }
    }
}

/// The children an expansion leaves behind are well formed: untouched if
/// already explored, else fresh one-ply states of `pre.game`.
proof fn lemma_mid_children_wf<G: Game>(pre: Node<G>, mid: Seq<Node<G>>)
    requires
        pre.wf(),
        match pre.children {
            Children::Expanded(cs) => mid == cs@,
            Children::NotExpanded => pre.game.spec_status() == Status::Unfinished
                && mid == spec_expanded(pre.game),
            Children::Leaf(_) => false,
        },
    ensures
        forall|i: int| 0 <= i < mid.len()
            ==> (#[trigger] mid[i]).wf()
                && mid[i].wins <= 2 * mid[i].visits
                && mid[i].prev_act == pre.game.spec_actions()[i]
                && mid[i].game == pre.game.spec_next(pre.game.spec_actions()[i]),
        match pre.children {
            Children::NotExpanded => forall|i: int| 0 <= i < mid.len()
                ==> #[trigger] mid[i].visits == 0,
            _ => true,
        },
{
    if pre.children is NotExpanded {
        assert forall|i: int| 0 <= i < mid.len() implies (#[trigger] mid[i]).wf()
            && mid[i].wins <= 2 * mid[i].visits
            && mid[i].prev_act == pre.game.spec_actions()[i]
            && mid[i].game == pre.game.spec_next(pre.game.spec_actions()[i])
            && mid[i].visits == 0 by {
            assert(mid[i] == fresh_node(pre.game, pre.game.spec_actions()[i]));
        }
    }
}

/// A well-formed expanded node's children count exactly its visits.
proof fn lemma_wf_children_sum<G: Game>(n: Node<G>)
    requires
        n.wf(),
    ensures
        match n.children {
            Children::Expanded(cs) => sum_visits(cs@) == n.visits,
            _ => true,
        },
{
}

impl<G: Game> Default for Children<G> {
    /// A node starts with unexplored children.
    fn default() -> (r: Children<G>)
        ensures
            r is NotExpanded,
    {
        Children::NotExpanded
    }
}

impl<G: Game> Children<G> {
    /// Whether this value has left `NotExpanded`.
    pub fn has_expanded(&self) -> (r: bool)
        ensures
            r == !(self is NotExpanded),
    {
        match self {
            Children::NotExpanded => false,
            _ => true,
        }
    }

    /// Explores a node's children once: a no-op if already explored,
    /// otherwise a `Leaf` for a finished `game` and one fresh child per
    /// legal action for an unfinished one.
    pub fn expand(&mut self, game: &G)
        ensures
            expand_rel(*game, *old(self), *final(self)),
            !((*final(self)) is NotExpanded),
            ((*old(self)) is NotExpanded && (*final(self)) is Expanded) ==> match *final(self) {
                Children::Expanded(cs) => cs@.len() > 0
                    && forall|i: int| 0 <= i < cs@.len()
                        ==> #[trigger] cs@[i].game.height() < game.height(),
                _ => true,
            },
    {
        if self.has_expanded() {
            return;
        }
        match game.status() {
            Status::Win => {
                *self = Children::Leaf(0);
            },
            Status::Draw => {
                *self = Children::Leaf(1);
            },
            Status::Lose => {
                *self = Children::Leaf(2);
            },
            Status::Unfinished => {
                *self = Children::Expanded(expand_list(game));
            },
        }
    }
}

} // verus!
