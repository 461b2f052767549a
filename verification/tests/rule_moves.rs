use wood_square::board::{Board, BoardPosition};
use wood_square::game_const::BOARD_SIZE;
use wood_square::rule::Rule;
use wood_square::stone::Occupy;

fn pos(x: usize, y: usize) -> BoardPosition {
    BoardPosition::new(x, y).unwrap()
}

fn count_stones(board: &Board) -> usize {
    let mut n = 0;
    for x in 0..BOARD_SIZE {
        for y in 0..BOARD_SIZE {
            if board.get(&pos(x, y)) != Occupy::Free {
                n += 1;
            }
        }
    }
    n
}

#[test]
fn occupied_cell_is_rejected_without_mutation() {
    let mut board = Board::new();
    let mut rule = Rule::new();
    assert!(rule.set_stone(&pos(3, 3), &mut board));
    assert_eq!(board.get(&pos(3, 3)), Occupy::Black);
    let before = board.get_board_string();
    assert!(!rule.is_black_turn());
    assert!(!rule.set_stone(&pos(3, 3), &mut board));
    assert_eq!(board.get_board_string(), before);
    assert!(!rule.is_black_turn());
}

#[test]
fn isolated_stone_liberties_interior_edge_corner() {
    let mut board = Board::new();
    let mut rule = Rule::new();
    assert!(board.set_stone(pos(7, 7), Occupy::Black).is_ok());
    assert!(board.set_stone(pos(0, 5), Occupy::White).is_ok());
    assert!(board.set_stone(pos(0, 0), Occupy::Black).is_ok());
    assert!(board.set_stone(pos(18, 18), Occupy::White).is_ok());
    let (interior, group) = rule.get_group_and_liberties(&pos(7, 7), &board);
    assert_eq!(interior, 4);
    assert_eq!(group, vec![(7, 7)]);
    let (edge, _) = rule.get_group_and_liberties(&pos(0, 5), &board);
    assert_eq!(edge, 3);
    let (corner, _) = rule.get_group_and_liberties(&pos(0, 0), &board);
    assert_eq!(corner, 2);
    let (far_corner, _) = rule.get_group_and_liberties(&pos(18, 18), &board);
    assert_eq!(far_corner, 2);
}

#[test]
fn connected_group_shares_liberties_without_double_count() {
    let mut board = Board::new();
    let mut rule = Rule::new();
    // Two black stones side by side in the interior: six distinct liberties.
    assert!(board.set_stone(pos(9, 9), Occupy::Black).is_ok());
    assert!(board.set_stone(pos(9, 10), Occupy::Black).is_ok());
    let (libs, group) = rule.get_group_and_liberties(&pos(9, 9), &board);
    assert_eq!(libs, 6);
    let mut members = group.clone();
    members.sort();
    assert_eq!(members, vec![(9, 9), (9, 10)]);
}

#[test]
fn shared_liberty_cell_is_counted_once() {
    let mut board = Board::new();
    let mut rule = Rule::new();
    // An L-shaped black group; the free cell at (6, 6) touches two of its
    // stones but is a single liberty.
    for (x, y) in [(5, 5), (5, 6), (6, 5)] {
        assert!(board.set_stone(pos(x, y), Occupy::Black).is_ok());
    }
    let (libs, group) = rule.get_group_and_liberties(&pos(5, 5), &board);
    assert_eq!(libs, 7);
    let mut members = group.clone();
    members.sort();
    assert_eq!(members, vec![(5, 5), (5, 6), (6, 5)]);
}

#[test]
fn suicide_is_rejected_and_leaves_board_unchanged() {
    let mut board = Board::new();
    let mut rule = Rule::new();
    // Four white stones around (5, 5), each with outside liberties.
    for (x, y) in [(4, 5), (6, 5), (5, 4), (5, 6)] {
        assert!(board.set_stone(pos(x, y), Occupy::White).is_ok());
    }
    let before = board.get_board_string();
    assert!(rule.is_black_turn());
    assert!(!rule.set_stone(&pos(5, 5), &mut board));
    assert_eq!(board.get(&pos(5, 5)), Occupy::Free);
    assert_eq!(board.get_board_string(), before);
    assert!(rule.is_black_turn());
}

#[test]
fn capture_frees_every_member_and_nothing_else() {
    let mut board = Board::new();
    let mut rule = Rule::new();
    // A white pair with a single remaining liberty at (4, 6).
    assert!(board.set_stone(pos(4, 4), Occupy::White).is_ok());
    assert!(board.set_stone(pos(4, 5), Occupy::White).is_ok());
    for (x, y) in [(3, 4), (5, 4), (4, 3), (3, 5), (5, 5)] {
        assert!(board.set_stone(pos(x, y), Occupy::Black).is_ok());
    }
    assert!(rule.set_stone(&pos(4, 6), &mut board));
    assert_eq!(board.get(&pos(4, 4)), Occupy::Free);
    assert_eq!(board.get(&pos(4, 5)), Occupy::Free);
    assert_eq!(board.get(&pos(4, 6)), Occupy::Black);
    for (x, y) in [(3, 4), (5, 4), (4, 3), (3, 5), (5, 5)] {
        assert_eq!(board.get(&pos(x, y)), Occupy::Black);
    }
    assert_eq!(count_stones(&board), 6);
}

#[test]
fn capture_takes_precedence_over_suicide() {
    let mut board = Board::new();
    let mut rule = Rule::new();
    // Black to play at (2, 1): no liberty of its own, but it captures the
    // white stone at (1, 1), so the move is legal.
    for (x, y) in [(0, 1), (1, 0), (1, 2)] {
        assert!(board.set_stone(pos(x, y), Occupy::Black).is_ok());
    }
    for (x, y) in [(1, 1), (3, 1), (2, 0), (2, 2)] {
        assert!(board.set_stone(pos(x, y), Occupy::White).is_ok());
    }
    assert!(rule.set_stone(&pos(2, 1), &mut board));
    assert_eq!(board.get(&pos(1, 1)), Occupy::Free);
    assert_eq!(board.get(&pos(2, 1)), Occupy::Black);
}

#[test]
fn ko_immediate_recapture_rejected_later_recapture_allowed() {
    let mut board = Board::new();
    let mut rule = Rule::new();
    // Build the canonical ko shape through legal alternating play.
    let build: [(usize, usize); 8] = [
        (0, 1), // black
        (3, 1), // white
        (1, 0), // black
        (2, 0), // white
        (1, 2), // black
        (2, 2), // white
        (9, 9), // black plays away
        (1, 1), // white completes the ko shape
    ];
    for (x, y) in build {
        assert!(rule.set_stone(&pos(x, y), &mut board));
    }
    // Black takes the ko: captures the single white stone at (1, 1).
    assert!(rule.set_stone(&pos(2, 1), &mut board));
    assert_eq!(board.get(&pos(1, 1)), Occupy::Free);
    assert_eq!(board.get(&pos(2, 1)), Occupy::Black);
    // White's immediate recapture would repeat the position: rejected.
    let before = board.get_board_string();
    assert!(!rule.is_black_turn());
    assert!(!rule.set_stone(&pos(1, 1), &mut board));
    assert_eq!(board.get_board_string(), before);
    assert!(!rule.is_black_turn());
    // White plays elsewhere, black answers, and the recapture is legal.
    assert!(rule.set_stone(&pos(15, 15), &mut board));
    assert!(rule.set_stone(&pos(16, 16), &mut board));
    assert!(rule.set_stone(&pos(1, 1), &mut board));
    assert_eq!(board.get(&pos(2, 1)), Occupy::Free);
    assert_eq!(board.get(&pos(1, 1)), Occupy::White);
}

#[test]
fn turn_alternates_on_accept_and_holds_on_reject() {
    let mut board = Board::new();
    let mut rule = Rule::new();
    assert!(rule.is_black_turn());
    assert!(rule.set_stone(&pos(0, 0), &mut board));
    assert!(!rule.is_black_turn());
    assert!(rule.set_stone(&pos(1, 1), &mut board));
    assert!(rule.is_black_turn());
    // Rejected: occupied.
    assert!(!rule.set_stone(&pos(0, 0), &mut board));
    assert!(rule.is_black_turn());
    assert!(rule.set_stone(&pos(2, 2), &mut board));
    assert!(!rule.is_black_turn());
}

#[test]
fn end_to_end_single_stone_capture_scenario() {
    let mut board = Board::new();
    let mut rule = Rule::new();
    let moves: [(usize, usize); 7] = [
        (7, 7), // black
        (7, 8), // white
        (6, 8), // black
        (6, 9), // white
        (8, 8), // black
        (8, 9), // white
        (7, 9), // black: captures the white stone at (7, 8)
    ];
    for (x, y) in moves {
        assert!(rule.set_stone(&pos(x, y), &mut board));
    }
    assert_eq!(board.get(&pos(7, 8)), Occupy::Free);
    for (x, y) in [(7, 7), (6, 8), (8, 8), (7, 9)] {
        assert_eq!(board.get(&pos(x, y)), Occupy::Black);
    }
    for (x, y) in [(6, 9), (8, 9)] {
        assert_eq!(board.get(&pos(x, y)), Occupy::White);
    }
    assert_eq!(count_stones(&board), 6);
    assert!(!rule.is_black_turn());
}
