use mcts::tree::{Children, Node};
use mcts::{Game, LineGame, Status, Uct};

fn child_stats(e: &Uct<LineGame>) -> Vec<(u8, u64, u64)> {
    e.children.iter().map(|n| (n.prev_act, n.visits, n.wins)).collect()
}

#[test]
fn fresh_engine_has_one_child_per_action() {
    let e = Uct::new(LineGame::new(), true);
    assert_eq!(e.visits(), 0);
    assert_eq!(
        child_stats(&e),
        vec![(0u8, 0u64, 0u64), (1u8, 0u64, 0u64), (2u8, 0u64, 0u64)]
    );
    assert_eq!(e.children[1].game.c1, 1);
    assert_eq!(e.children[1].game.turn, 2);
}

#[test]
fn first_playout_statistics() {
    let mut e = Uct::new(LineGame::new(), true);
    e.play_out();
    assert_eq!(e.visits(), 1);
    // Exactly one depth-1 child was visited: the first, once.
    assert_eq!(e.children[0].visits, 1);
    assert_eq!(e.children[1].visits, 0);
    assert_eq!(e.children[2].visits, 0);
    // The playout below claims cells 0, 1, 2 in turn and ends in the drawn
    // board; the draw value (one half-point) flips through each level and
    // lands unchanged in the child's accumulator.
    assert_eq!(e.children[0].wins, 1);
}

#[test]
fn one_playout_per_opening_action() {
    let mut e = Uct::new(LineGame::new(), true);
    let n = e.children.len();
    assert_eq!(n, 3);
    for _ in 0..n {
        e.play_out();
    }
    assert_eq!(e.visits(), n as u64);
    for child in &e.children {
        assert_eq!(child.visits, 1);
    }
}

#[test]
fn commit_preserves_subtree() {
    let mut e = Uct::new(LineGame::new(), true);
    for _ in 0..10 {
        e.play_out();
    }
    let promoted_visits = e.children[0].visits;
    assert!(promoted_visits >= 1);
    let sub: Vec<(u8, u64, u64)> = match &e.children[0].children {
        Children::Expanded(v) => v.iter().map(|n| (n.prev_act, n.visits, n.wins)).collect(),
        _ => panic!("a visited unfinished child must be expanded"),
    };
    e.next(0);
    assert_eq!(e.visits(), promoted_visits);
    assert_eq!(child_stats(&e), sub);
    assert_eq!((e.game.c0, e.game.c1, e.game.c2, e.game.turn), (1, 0, 0, 2));
}

#[test]
fn commit_unvisited_child_expands_it() {
    let mut e = Uct::new(LineGame::new(), true);
    // No playouts at all: the children are unexplored with no statistics.
    e.next(2);
    assert_eq!(e.visits(), 0);
    assert_eq!(
        child_stats(&e),
        vec![(0u8, 0u64, 0u64), (1u8, 0u64, 0u64)]
    );
    assert_eq!((e.game.c0, e.game.c1, e.game.c2, e.game.turn), (0, 0, 1, 2));
}

#[test]
fn most_visited_takes_largest_counter_earliest_first() {
    let game = LineGame::new();
    let mk = |a: u8, v: u64, w: u64| Node {
        game: game.next(&a),
        prev_act: a,
        visits: v,
        wins: w,
        children: Children::NotExpanded,
    };
    let e = Uct {
        game,
        visits: 7,
        children: vec![mk(0, 3, 2), mk(1, 1, 2), mk(2, 3, 6)],
    };
    assert_eq!(*e.most_visited(), 0u8);
}

#[test]
fn best_action_takes_greatest_win_rate_skipping_unvisited() {
    let game = LineGame::new();
    let mk = |a: u8, v: u64, w: u64| Node {
        game: game.next(&a),
        prev_act: a,
        visits: v,
        wins: w,
        children: Children::NotExpanded,
    };
    // Win rates in half-points per visit: 2/4, 6/4, 0/0 (skipped).
    let e = Uct {
        game,
        visits: 8,
        children: vec![mk(0, 4, 2), mk(1, 4, 6), mk(2, 0, 0)],
    };
    assert_eq!(*e.best_action(), 1u8);
    // All children unvisited: the first stands in.
    let e2 = Uct {
        game,
        visits: 0,
        children: vec![mk(0, 0, 0), mk(1, 0, 0), mk(2, 0, 0)],
    };
    assert_eq!(*e2.best_action(), 0u8);
}

#[test]
fn expand_twice_same_children() {
    // An unfinished node: expansion yields one fresh child per action, and a
    // second expansion is a no-op.
    let g = LineGame::new();
    let mut n = Node::new(g.next(&0u8), 0u8);
    n.children.expand(&n.game);
    let snap = |c: &Children<LineGame>| -> Vec<(u8, u64, u64)> {
        match c {
            Children::Expanded(v) => v.iter().map(|n| (n.prev_act, n.visits, n.wins)).collect(),
            _ => panic!("expected an expanded node"),
        }
    };
    let once = snap(&n.children);
    assert_eq!(once, vec![(1u8, 0u64, 0u64), (2u8, 0u64, 0u64)]);
    n.children.expand(&n.game);
    assert_eq!(snap(&n.children), once);

    // A finished node: expansion yields the same leaf both times. Cells 0
    // and 1 are an adjacent pair of player 1, a loss for the player to move.
    let done = LineGame { c0: 1, c1: 1, c2: 0, turn: 2 };
    let mut leaf = Node::new(done, 2u8);
    leaf.children.expand(&leaf.game);
    assert!(matches!(leaf.children, Children::Leaf(2)));
    leaf.children.expand(&leaf.game);
    assert!(matches!(leaf.children, Children::Leaf(2)));
}

#[test]
fn full_game_drive() {
    let mut e = Uct::new(LineGame::new(), true);
    let mut game = LineGame::new();
    while matches!(game.status(), Status::Unfinished) {
        for _ in 0..30 {
            e.play_out();
        }
        let a = *e.most_visited();
        game = game.next(&a);
        e.next(a);
        assert_eq!(
            (e.game.c0, e.game.c1, e.game.c2, e.game.turn),
            (game.c0, game.c1, game.c2, game.turn)
        );
    }
    assert!(e.children.is_empty());
}
