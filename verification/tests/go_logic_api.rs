use wood_square::game_const::{BOARD_SIZE, CELL_COUNT};
use wood_square::go_logic::GoLogic;

fn stone_count(game: &GoLogic) -> usize {
    game.get_board_string().bytes().filter(|b| *b != b'0').count()
}

fn cell_byte(game: &GoLogic, x: usize, y: usize) -> u8 {
    game.get_board_string().as_bytes()[x * BOARD_SIZE + y]
}

#[test]
fn fresh_game_is_empty_and_black_moves_first() {
    let game = GoLogic::new();
    assert!(game.is_blakc_turn());
    let s = game.get_board_string();
    assert_eq!(s.len(), CELL_COUNT);
    assert!(s.bytes().all(|b| b == b'0'));
}

#[test]
fn place_stone_rejects_out_of_bounds_coordinates() {
    let mut game = GoLogic::new();
    assert!(!game.place_stone(-1, 5));
    assert!(!game.place_stone(5, -1));
    assert!(!game.place_stone(BOARD_SIZE as i8, 0));
    assert!(!game.place_stone(0, BOARD_SIZE as i8));
    assert!(game.is_blakc_turn());
    assert_eq!(stone_count(&game), 0);
}

#[test]
fn place_stone_alternates_colours() {
    let mut game = GoLogic::new();
    assert!(game.place_stone(3, 3));
    assert_eq!(cell_byte(&game, 3, 3), b'1');
    assert!(!game.is_blakc_turn());
    assert!(game.place_stone(4, 4));
    assert_eq!(cell_byte(&game, 4, 4), b'2');
    assert!(game.is_blakc_turn());
}

#[test]
fn place_stone_rejects_occupied_point() {
    let mut game = GoLogic::new();
    assert!(game.place_stone(3, 3));
    let before = game.get_board_string();
    assert!(!game.place_stone(3, 3));
    assert_eq!(game.get_board_string(), before);
    assert!(!game.is_blakc_turn());
}

#[test]
fn liberties_of_corner_stone_through_game_api() {
    let mut game = GoLogic::new();
    assert!(game.place_stone(0, 0));
    let (libs, group) = game.get_group_and_liberties(0, 0);
    assert_eq!(libs, 2);
    assert_eq!(group, vec![(0, 0)]);
}

#[test]
fn end_to_end_capture_through_game_api() {
    let mut game = GoLogic::new();
    let moves: [(i8, i8); 7] = [
        (7, 7),
        (7, 8),
        (6, 8),
        (6, 9),
        (8, 8),
        (8, 9),
        (7, 9),
    ];
    for (x, y) in moves {
        assert!(game.place_stone(x, y));
    }
    assert_eq!(cell_byte(&game, 7, 8), b'0');
    assert_eq!(cell_byte(&game, 7, 7), b'1');
    assert_eq!(cell_byte(&game, 6, 8), b'1');
    assert_eq!(cell_byte(&game, 8, 8), b'1');
    assert_eq!(cell_byte(&game, 7, 9), b'1');
    assert_eq!(cell_byte(&game, 6, 9), b'2');
    assert_eq!(cell_byte(&game, 8, 9), b'2');
    assert_eq!(stone_count(&game), 6);
    assert!(!game.is_blakc_turn());
}
