use wood_square::board::{Board, BoardError, BoardPosition};
use wood_square::game_const::{BOARD_SIZE, CELL_COUNT};
use wood_square::stone::Occupy;

fn pos(x: usize, y: usize) -> BoardPosition {
    BoardPosition::new(x, y).unwrap()
}

#[test]
fn position_factory_accepts_in_bounds() {
    assert!(BoardPosition::new(0, 0).is_some());
    assert!(BoardPosition::new(BOARD_SIZE - 1, BOARD_SIZE - 1).is_some());
    let p = BoardPosition::new(7, 11).unwrap();
    assert_eq!(p.x, 7);
    assert_eq!(p.y, 11);
}

#[test]
fn position_factory_rejects_out_of_bounds() {
    assert!(BoardPosition::new(BOARD_SIZE, 0).is_none());
    assert!(BoardPosition::new(0, BOARD_SIZE).is_none());
    assert!(BoardPosition::new(BOARD_SIZE, BOARD_SIZE).is_none());
    assert!(BoardPosition::new(usize::MAX, 3).is_none());
}

#[test]
fn new_board_is_all_free() {
    let board = Board::new();
    for x in 0..BOARD_SIZE {
        for y in 0..BOARD_SIZE {
            assert_eq!(board.get(&pos(x, y)), Occupy::Free);
        }
    }
}

#[test]
fn set_stone_writes_single_cell() {
    let mut board = Board::new();
    assert!(board.set_stone(pos(3, 4), Occupy::Black).is_ok());
    assert_eq!(board.get(&pos(3, 4)), Occupy::Black);
    for x in 0..BOARD_SIZE {
        for y in 0..BOARD_SIZE {
            if (x, y) != (3, 4) {
                assert_eq!(board.get(&pos(x, y)), Occupy::Free);
            }
        }
    }
}

#[test]
fn set_stone_rejects_occupied_cell() {
    let mut board = Board::new();
    assert!(board.set_stone(pos(3, 4), Occupy::Black).is_ok());
    let r = board.set_stone(pos(3, 4), Occupy::White);
    assert!(matches!(r, Err(BoardError::PositionOccupied)));
    assert_eq!(board.get(&pos(3, 4)), Occupy::Black);
}

#[test]
fn remove_stone_frees_cell_and_tolerates_free_cell() {
    let mut board = Board::new();
    assert!(board.set_stone(pos(0, 0), Occupy::White).is_ok());
    board.remove_stone(pos(0, 0));
    assert_eq!(board.get(&pos(0, 0)), Occupy::Free);
    board.remove_stone(pos(0, 0));
    assert_eq!(board.get(&pos(0, 0)), Occupy::Free);
}

#[test]
fn get_is_deterministic_between_mutations() {
    let mut board = Board::new();
    assert!(board.set_stone(pos(9, 9), Occupy::White).is_ok());
    let first = board.get(&pos(9, 9));
    let second = board.get(&pos(9, 9));
    let third = board.get(&pos(9, 9));
    assert_eq!(first, second);
    assert_eq!(second, third);
    assert_eq!(first, Occupy::White);
}

#[test]
fn board_string_is_row_major_with_fixed_alphabet() {
    let mut board = Board::new();
    assert!(board.set_stone(pos(0, 0), Occupy::Black).is_ok());
    assert!(board.set_stone(pos(0, 1), Occupy::White).is_ok());
    assert!(board.set_stone(pos(1, 0), Occupy::Black).is_ok());
    let s = board.get_board_string();
    assert_eq!(s.len(), CELL_COUNT);
    let bytes = s.as_bytes();
    assert_eq!(bytes[0], b'1');
    assert_eq!(bytes[1], b'2');
    assert_eq!(bytes[BOARD_SIZE], b'1');
    for i in 2..BOARD_SIZE {
        assert_eq!(bytes[i], b'0');
    }
    for i in (BOARD_SIZE + 1)..CELL_COUNT {
        assert_eq!(bytes[i], b'0');
    }
}

#[test]
fn equal_boards_serialize_identically() {
    let mut a = Board::new();
    let mut b = Board::new();
    assert!(a.set_stone(pos(5, 6), Occupy::Black).is_ok());
    assert!(b.set_stone(pos(5, 6), Occupy::Black).is_ok());
    assert_eq!(a.get_board_string(), b.get_board_string());
    assert!(b.set_stone(pos(6, 6), Occupy::White).is_ok());
    assert_ne!(a.get_board_string(), b.get_board_string());
}
