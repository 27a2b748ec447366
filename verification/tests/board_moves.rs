use chessbot5::backend::board::{Board, Moves, Move, Position};
use chessbot5::backend::piece::{Color, Piece};

const EMPTY: &str = "--------\n--------\n--------\n--------\n--------\n--------\n--------\n--------";

/// The empty board with the given pieces placed, as (letter, x, y) with rows from the top.
fn board_with(pieces: &[(char, usize, usize)], c: Color) -> Board {
    let mut rows: Vec<Vec<char>> = vec![vec!['-'; 8]; 8];
    for (ch, x, y) in pieces {
        rows[*y][*x] = *ch;
    }
    let text: Vec<String> = rows.iter().map(|r| r.iter().collect()).collect();
    Board::custom(&text.join("\n"), c)
}

fn mv(s: &str) -> Move {
    Move::from_str(s).unwrap()
}

fn moves_of(list: &[&str]) -> Moves {
    Moves(list.iter().map(|s| mv(s)).collect())
}

#[test]
fn just_a_king() {
    let mut board = board_with(&[('K', 4, 7)], Color::White);
    let moves = board.moves();
    let expected = moves_of(&["e1d2", "e1e2", "e1f2", "e1f1", "e1d1"]);
    assert_eq!(moves, expected);
}

#[test]
fn just_a_knight() {
    let mut board = board_with(&[('N', 1, 0)], Color::White);
    let actual = board.moves();
    let expected = moves_of(&["b8c6", "b8d7", "b8a6"]);
    assert_eq!(expected, actual);
}

#[test]
fn just_a_bishop() {
    let mut board = board_with(&[('B', 1, 1)], Color::White);
    let actual = board.moves();
    let expected = moves_of(&["b7a8", "b7c8", "b7c6", "b7d5", "b7e4", "b7f3", "b7g2", "b7h1", "b7a6"]);
    assert_eq!(expected, actual);
}

#[test]
fn can_capture_enemy() {
    let mut board = board_with(&[('p', 0, 6), ('p', 1, 6), ('Q', 0, 7)], Color::White);
    let moves = board.moves();
    assert!(moves.contains(&mv("a1a2")));
    assert!(moves.contains(&mv("a1b2")));
    assert!(!moves.contains(&mv("a1a3")));
}

#[test]
fn can_not_capture_own_piece() {
    let mut board = board_with(&[('n', 4, 0), ('q', 3, 0)], Color::Black);
    let moves = board.moves();
    assert!(!moves.contains(&mv("d8e8")));
    assert!(!moves.contains(&mv("d8f8")));
    assert!(moves.contains(&mv("d8c8")));
}

#[test]
fn just_a_pawn() {
    let mut board = board_with(&[('P', 3, 4)], Color::White);
    let actual = board.moves();
    let mut expected = Moves::new();
    expected.push(mv("d4d5"));
    assert_eq!(expected, actual);
}

#[test]
fn cannot_capture_own() {
    let mut board = board_with(&[('R', 0, 4), ('Q', 0, 0)], Color::White);
    assert!(!board.is_legal(&mv("a4a8")));
    assert!(!board.is_legal(&mv("a8a4")));
}

#[test]
fn cannot_go_through_others() {
    let pieces = [('R', 0, 7), ('r', 0, 0), ('b', 0, 4)];
    let mut board = board_with(&pieces, Color::White);
    assert!(!board.is_legal(&mv("a1a8")));
    assert!(board.is_legal(&mv("a1a4")));

    let mut board = board_with(&pieces, Color::Black);
    assert!(!board.is_legal(&mv("a8a4")));
    assert!(!board.is_legal(&mv("a8a1")));
}

#[test]
fn real_case() {
    let s = "r-b-kbnr\npppp-ppp\n--n--q--\n----P---\n--------\n--N-B---\nPPP-PPPP\nR--QKBNR";
    let mut b = Board::custom(s, Color::Black);
    assert!(!b.is_legal(&mv("f6e4")));
}

#[test]
fn another_real_case() {
    let s = "\n\nrnbqkb-r\nppp-pppp\n--------\n---p----\n--------\n--Q-----\nPPPP-PPP\nR-B-KBNR";
    let mut b = Board::custom(s, Color::White);
    assert!(!b.is_legal(&mv("c3d5")));
}

#[test]
fn a_third_real_case() {
    let s = "rnb-kbnr\npp-ppppp\n--------\n--------\n---pPB--\n--N-----\nPqP--PPP\nR--QKBNR";
    let mut b = Board::custom(s, Color::Black);
    let m = mv("b2a1");
    assert!(b.is_legal(&m));
    assert!(b.moves().contains(&m));
}

#[test]
fn initial_board_threats() {
    let board = Board::new();
    for (x, y) in &[(1, 2), (2, 2), (4, 2), (6, 2), (7, 2), (0, 1), (1, 1), (2, 1), (2, 0), (5, 1), (7, 1)] {
        assert!(board.is_threatened_by(&Position { x: *x, y: *y }, Color::Black));
    }
    for (x, y) in &[(0, 0), (7, 0), (3, 3), (1, 6), (4, 6), (4, 5), (7, 6)] {
        assert!(!board.is_threatened_by(&Position { x: *x, y: *y }, Color::Black));
    }
    for (x, y) in &[(0, 6), (1, 6), (5, 6), (7, 6), (1, 5), (0, 5), (4, 5), (6, 5)] {
        assert!(board.is_threatened_by(&Position { x: *x, y: *y }, Color::White));
    }
    for (x, y) in &[(0, 7), (7, 7), (4, 4), (0, 1), (5, 1), (7, 1)] {
        assert!(!board.is_threatened_by(&Position { x: *x, y: *y }, Color::White));
    }
}

#[test]
fn cannot_go_into_check() {
    let mut board = board_with(&[('K', 1, 0), ('r', 7, 1)], Color::White);
    assert!(!board.is_legal(&mv("b8b7")));
    assert!(!board.is_legal(&mv("b8a7")));
    assert!(!board.is_legal(&mv("b8c7")));
    assert!(board.is_legal(&mv("b8a8")));
}

#[test]
fn must_escape_check() {
    let mut board = board_with(&[('K', 1, 0), ('r', 7, 0)], Color::White);
    assert!(board.is_legal(&mv("b8b7")));
    assert!(board.is_legal(&mv("b8a7")));
    assert!(board.is_legal(&mv("b8c7")));
    assert!(!board.is_legal(&mv("b8a8")));
    assert!(!board.is_legal(&mv("b8c8")));
}

#[test]
fn can_block_check() {
    let mut board = board_with(&[('K', 1, 0), ('r', 7, 0), ('R', 4, 4)], Color::White);
    assert!(board.is_legal(&mv("e4e8")));
}

#[test]
fn fools_mate() {
    let mut board = Board::new();
    board.move_str("f2f3");
    board.move_str("e7e5");
    board.move_str("g2g4");
    board.move_str("d8h4");
    assert!(board.is_checkmate());
    assert_eq!(board.winner(), Some(Color::Black));
}

#[test]
fn scholars_mate() {
    let mut board = Board::new();
    board.move_str("e2e4");
    board.move_str("e7e5");
    board.move_str("f1c4");
    board.move_str("b8c6");
    board.move_str("d1h5");
    board.move_str("g8f6");
    board.move_str("h5f7");
    assert!(board.is_checkmate());
    assert_eq!(board.winner(), Some(Color::White));
}

#[test]
fn can_go_two_squares() {
    let mut board = board_with(&[('P', 0, 6)], Color::White);
    let actual = board.moves();
    let mut expected = Moves::new();
    expected.push(mv("a2a3"));
    expected.push(mv("a2a4"));
    assert_eq!(expected, actual);
}

#[test]
fn black_pawns_go_backwards() {
    let mut board = board_with(&[('p', 4, 1)], Color::Black);
    let actual = board.moves();
    let mut expected = Moves::new();
    expected.push(mv("e7e6"));
    expected.push(mv("e7e5"));
    assert_eq!(expected, actual);
}

#[test]
fn pawns_capture_diagonally() {
    let mut board = board_with(&[('P', 1, 6), ('p', 0, 5), ('P', 2, 5)], Color::White);
    let actual = board.moves();
    let expected = moves_of(&["c3c4", "b2a3", "b2b3", "b2b4"]);
    assert_eq!(expected, actual);
}

#[test]
fn en_passant() {
    let mut board = board_with(&[('P', 7, 6), ('p', 6, 4)], Color::White);
    board.move_piece(&mv("h2h4"));
    let actual = board.moves();
    let expected = moves_of(&["g4g3", "g4h3"]);
    assert_eq!(expected, actual);
}

#[test]
fn en_croissant() {
    let mut board = board_with(&[('P', 4, 3), ('p', 3, 1), ('P', 0, 6), ('p', 0, 1)], Color::Black);
    board.move_piece(&mv("d7d5"));
    assert!(board.moves().contains(&mv("e5d6")));
    board.move_piece(&mv("a2a3"));
    board.move_piece(&mv("a7a6"));
    assert!(!board.moves().contains(&mv("e5d6")));
}

#[test]
fn google_en_passant() {
    let mut board = board_with(&[('P', 0, 6), ('p', 1, 4)], Color::White);
    board.move_piece(&mv("a2a4"));
    board.move_piece(&mv("b4a3"));
    assert_eq!(board.get_reference_at(0, 4), &None);
}

#[test]
fn holy_hell() {
    let mut board = board_with(&[('p', 3, 1), ('P', 4, 3)], Color::Black);
    board.move_piece(&mv("d7d5"));
    board.move_piece(&mv("e5d6"));
    assert_eq!(board.get_reference_at(3, 3), &None);
}

#[test]
fn en_passant_yields_score() {
    let start = "rnbqkbnr\npppppppp\n--------\nP-------\n--------\n--------\nPPPPPPPP\nRNBQKBNR";
    let mut b1 = Board::custom(start, Color::Black);
    let mut b2 = Board::custom(start, Color::Black);
    assert_eq!(b1, b2);

    b1.move_str("b7b5");
    b2.move_str("b7b6");
    assert_ne!(b1, b2);

    b1.move_str("a5b6");
    b2.move_str("a5b6");
    assert_eq!(b1.grid(), b2.grid());
    assert_eq!(b1.heuristic_value(), b2.heuristic_value());
}

#[test]
fn can_promote_to_queen() {
    let mut board = board_with(&[('P', 0, 1)], Color::White);
    board.move_piece(&mv("a7a8Q"));
    assert_eq!(board.get_reference_at(0, 0), &Piece::new('Q'));
}

#[test]
fn can_promote_to_knight() {
    let mut board = board_with(&[('P', 0, 1)], Color::White);
    board.move_piece(&mv("a7a8N"));
    assert_eq!(board.get_reference_at(0, 0), &Piece::new('N'));
}

#[test]
fn can_undo_promotion() {
    let mut board = board_with(&[('P', 0, 1)], Color::White);
    let copy = board_with(&[('P', 0, 1)], Color::White);
    board.move_piece(&mv("a7a8"));
    assert_ne!(board, copy);
    board.go_back();
    assert_eq!(board.get_reference_at(0, 0), &None);
    assert_eq!(board.get_reference_at(0, 1), &Piece::new('P'));
    assert_eq!(board, copy);
}

#[test]
fn can_undo_capture_promotion() {
    let mut board = board_with(&[('P', 0, 1), ('r', 1, 0)], Color::White);
    let copy = board_with(&[('P', 0, 1), ('r', 1, 0)], Color::White);
    assert_eq!(board, copy);

    board.move_str("a7b8Q");
    assert_ne!(board, copy);
    assert_eq!(board.get_reference_at(0, 1), &None);
    assert_eq!(board.get_reference_at(1, 0), &Piece::new('Q'));

    board.go_back();
    assert_eq!(board, copy);
    assert_eq!(board.get_reference_at(0, 1), &Piece::new('P'));
    assert_eq!(board.get_reference_at(1, 0), &Piece::new('r'));
}

#[test]
fn empty_board_text() {
    let board = Board::custom(EMPTY, Color::White);
    assert_eq!(board.to_string(), format!("{}\n", EMPTY));
    assert_eq!(Board::new().to_string(), "rnbqkbnr\npppppppp\n--------\n--------\n--------\n--------\nPPPPPPPP\nRNBQKBNR\n");
}

#[test]
fn can_promote_to_rook_and_bishop_by_name() {
    let mut board = Board::custom("--------\nP-------\n--------\n--------\n--------\n--------\n--------\n--------", Color::White);
    assert!(board.move_str("a7a8R").is_some());
    assert_eq!(board.get_reference_at(0, 0), &Piece::new('R'));
    let mut board = Board::custom("--------\nP-------\n--------\n--------\n--------\n--------\n--------\n--------", Color::White);
    assert!(board.move_str("a7a8B").is_some());
    assert_eq!(board.get_reference_at(0, 0), &Piece::new('B'));
}

#[test]
fn a_promoting_pawn_has_four_choices() {
    let mut board = Board::custom("--------\nP-------\n--------\n--------\n--------\n--------\n--------\n--------", Color::White);
    assert_eq!(board.moves().len(), 4);
}
