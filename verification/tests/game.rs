use mcts::{Game, LineGame, Status};

#[test]
fn status_default_is_unfinished() {
    assert_eq!(Status::default(), Status::Unfinished);
}

#[test]
fn actions_match_status() {
    let g = LineGame::new();
    assert_eq!(g.status(), Status::Unfinished);
    assert_eq!(g.next_actions(), vec![0u8, 1, 2]);

    // Cells 0 and 1 belong to player 1: the player to move has lost, and a
    // finished board offers no action.
    let lost = LineGame { c0: 1, c1: 1, c2: 0, turn: 2 };
    assert_eq!(lost.status(), Status::Lose);
    assert!(lost.next_actions().is_empty());

    // A full board without an adjacent pair is a draw.
    let drawn = LineGame { c0: 1, c1: 2, c2: 1, turn: 2 };
    assert_eq!(drawn.status(), Status::Draw);
    assert!(drawn.next_actions().is_empty());
}

#[test]
fn next_places_the_mover_and_flips_the_turn() {
    let g = LineGame::new();
    let g1 = g.next(&1u8);
    assert_eq!((g1.c0, g1.c1, g1.c2, g1.turn), (0, 1, 0, 2));
    let g2 = g1.next(&2u8);
    assert_eq!((g2.c0, g2.c1, g2.c2, g2.turn), (0, 1, 2, 1));
    assert_eq!(g2.next_actions(), vec![0u8]);
}

#[test]
fn second_player_can_lose_by_adjacency() {
    // 1 claims cell 0, 2 claims cell 2, 1 claims cell 1: cells 0 and 1 are
    // an adjacent pair of player 1 and player 2, to move, has lost.
    let g = LineGame::new().next(&0u8).next(&2u8).next(&1u8);
    assert_eq!(g.status(), Status::Lose);
}

#[test]
fn action_eq_decides_equality() {
    assert!(<LineGame as Game>::action_eq(&1u8, &1u8));
    assert!(!<LineGame as Game>::action_eq(&1u8, &2u8));
}
