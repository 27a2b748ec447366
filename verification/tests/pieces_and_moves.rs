use chessbot5::backend::board_representation::movement::{Move, Moves, Position};
use chessbot5::backend::piece::{Color, Piece};
use chessbot5::backend::zobrist::Zobrist;
use chessbot5::backend::movement as old_backend;
use chessbot5::piece as first;

#[test]
fn zero_sum_piece_values() {
    let king_w = Piece::new('K').unwrap();
    let king_b = Piece::new('k').unwrap();
    assert_eq!(0, king_w.combined_value_at(&Position { x: 4, y: 7 }) + king_b.combined_value_at(&Position { x: 4, y: 0 }));
    let queen_w = Piece::new('Q').unwrap();
    let queen_b = Piece::new('q').unwrap();
    assert_eq!(0, queen_w.combined_value_at(&Position { x: 6, y: 3 }) + queen_b.combined_value_at(&Position { x: 6, y: 4 }));
    let pawn_w = Piece::new('P').unwrap();
    let pawn_b = Piece::new('p').unwrap();
    assert_eq!(0, pawn_w.combined_value_at(&Position { x: 2, y: 1 }) + pawn_b.combined_value_at(&Position { x: 2, y: 6 }));
}

#[test]
fn can_sort_by_heurestic() {
    let mut moves = Moves(vec![Move::new(0, 0, 0, 0, None, 50), Move::new(0, 0, 0, 0, None, 25), Move::new(0, 0, 0, 0, None, -10), Move::new(0, 0, 0, 0, None, 100)]);
    let expected_white = Moves(vec![Move::new(0, 0, 0, 0, None, 100), Move::new(0, 0, 0, 0, None, 50), Move::new(0, 0, 0, 0, None, 25), Move::new(0, 0, 0, 0, None, -10)]);
    moves.sort_by_heuristic(Color::White);
    assert_eq!(moves, expected_white);
    let expected_black = Moves(vec![Move::new(0, 0, 0, 0, None, -10), Move::new(0, 0, 0, 0, None, 25), Move::new(0, 0, 0, 0, None, 50), Move::new(0, 0, 0, 0, None, 100)]);
    moves.sort_by_heuristic(Color::Black);
    assert_eq!(moves, expected_black);
}

#[test]
fn sorting_orders_values_and_keeps_ties_in_order() {
    let mut moves = Moves(vec![Move::new(0, 0, 1, 1, None, 5), Move::new(0, 0, 2, 2, None, 9), Move::new(0, 0, 3, 3, None, 5), Move::new(0, 0, 4, 4, None, -1)]);
    moves.sort_by_heuristic(Color::White);
    let values: Vec<i32> = moves.0.iter().map(|m| m.heuristic_value()).collect();
    assert_eq!(values, vec![9, 5, 5, -1]);
    assert_eq!(moves.0[1].to.x, 1);
    assert_eq!(moves.0[2].to.x, 3);
    moves.sort_by_heuristic(Color::Black);
    let values: Vec<i32> = moves.0.iter().map(|m| m.heuristic_value()).collect();
    assert_eq!(values, vec![-1, 5, 5, 9]);
}

#[test]
fn move_text_round_trip() {
    let m = Move::from_str("e2e4").unwrap();
    assert_eq!(m.from, Position { x: 4, y: 6 });
    assert_eq!(m.to, Position { x: 4, y: 4 });
    assert_eq!(m.to_string_short(), "e2e4");
    assert_eq!(m.to_string(), "(e2, e4)");
    assert!(Move::from_str("i2e4").is_err());
    assert!(Move::from_str("e2e4x").is_err());
    assert_eq!(Move::from_str("b7a8Q").unwrap().promote, Piece::new('Q'));
}

#[test]
fn piece_letters_and_values() {
    let n = Piece::new('n').unwrap();
    assert_eq!(n.char(), 'n');
    assert_eq!(n.color, Color::Black);
    assert_eq!(Piece::new('-'), None);
    assert_eq!(Piece::new('Q').unwrap().inherent_value(), 1025);
    assert_eq!(Piece::new('q').unwrap().inherent_value(), -1025);
    assert_eq!(Color::White.opposite(), Color::Black);
    assert_eq!(Color::Black.to_string(), "Black");
    assert_eq!(Piece::new('K').unwrap().type_index(), 10);
    assert!(Piece::new('B').unwrap().can_run());
    assert!(!Piece::new('N').unwrap().can_run());
}

#[test]
fn old_move_reads_and_compares() {
    let m = old_backend::Move::from_str("e2e4").unwrap();
    assert_eq!(m.from, old_backend::Position { x: 4, y: 6 });
    assert_eq!(m.heurestic_value(), 0);
    assert!(old_backend::Move::from_str("e2e").is_none());
    let mut m2 = old_backend::Move::new(4, 6, 4, 4, None, 17);
    assert_eq!(m, m2);
    m2.set_actual_value(5);
    assert_eq!(m2.actual_value(), 5);
    assert_eq!(m2.heurestic_value(), 17);
    assert_eq!(m2.to_string(), "(e2, e4)");
}

#[test]
fn first_version_pieces_and_moves() {
    let p = first::Piece::new('R').unwrap();
    assert_eq!(p.char(), 'R');
    assert_eq!(first::Color::Black.opposite(), first::Color::White);
    assert_eq!(first::Piece::new('-'), None);
    let m = chessbot5::movement::Move::new(1, 2, 3, 4);
    assert_eq!(m.from, chessbot5::movement::Position { x: 1, y: 2 });
    let b = chessbot5::board::Move::new(1, 2, 3, 4);
    assert_eq!(b, chessbot5::board::Move::new(1, 2, 3, 4));
}

#[test]
fn short_or_malformed_moves_are_refused() {
    assert!(Move::from_str("e4").is_err());
    assert!(Move::from_str("Pe4").is_err());
    assert!(Move::from_str("e2-e4").is_err());
    assert!(old_backend::Move::from_str("e4").is_none());
    assert!(old_backend::Move::from_str("Pe4").is_none());
    assert!(old_backend::Move::from_str("e2-e4").is_none());
    assert!(old_backend::Move::from_str("e2e4x").is_none());
    assert!(old_backend::Move::from_str("b7a8Q").is_some());
}

#[test]
fn the_kelvin_sign_is_a_white_king() {
    assert_eq!(Piece::new('\u{212A}'), Piece::new('K'));
    assert_eq!(first::Piece::new('\u{212A}'), first::Piece::new('K'));
}

#[test]
fn zobrist_keys_come_from_the_drawn_numbers_in_order() {
    let d: Vec<i64> = (0..782).map(|i| (i as i64) * 1000 + 1).collect();
    let mut grid = [[None; 8]; 8];
    let empty_white = Zobrist::from_draws(&d, &grid, Color::White);
    assert_eq!(empty_white.hash, d[0]);
    assert_eq!(empty_white.color_to_move, d[1]);
    assert_eq!(empty_white.castle, (d[2], d[3], d[4], d[5]));
    assert_eq!(empty_white.en_passant[7], d[13]);
    let empty_black = Zobrist::from_draws(&d, &grid, Color::Black);
    assert_eq!(empty_black.hash, d[0] ^ d[1]);
    // A black rook (type index 3) on square (x 2, y 1).
    grid[1][2] = Piece::new('r');
    let one = Zobrist::from_draws(&d, &grid, Color::White);
    assert_eq!(one.arr[1][2][3], d[14 + (8 + 2) * 12 + 3]);
    assert_eq!(one.hash, d[0] ^ d[14 + (8 + 2) * 12 + 3]);
}

#[test]
fn a_file_off_the_board_is_still_written_as_a_letter() {
    let m = Move::new(8, 0, 9, 1, None, 0);
    assert_eq!(m.to_string_short(), "i8j7");
    assert_eq!(m.to_string(), "(i8, j7)");
}
