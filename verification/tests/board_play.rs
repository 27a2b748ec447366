use chessbot5::backend::board::{Board, Move};
use chessbot5::backend::piece::{Color, Piece};
use chessbot5::backend::zobrist::Zobrist;

fn mv(s: &str) -> Move {
    Move::from_str(s).unwrap()
}

const SIMPLE: &str = "r---k--r\npppppppp\n--------\n--------\n--------\n--------\nPPPPPPPP\nR---K--R";
const E4: &str = "rnbqkbnr\npppppppp\n--------\n--------\n----P---\n--------\nPPPP-PPP\nRNBQKBNR";
const E4C5: &str = "rnbqkbnr\npp-ppppp\n--------\n--p-----\n----P---\n--------\nPPPP-PPP\nRNBQKBNR";
const E4C6: &str = "rnbqkbnr\npp-ppppp\n--p-----\n--------\n----P---\n--------\nPPPP-PPP\nRNBQKBNR";

#[test]
fn same_moves_should_yield_same_score() {
    let mut board = Board::new();
    assert_eq!(0, board.heuristic_value());
    board.move_str("e2e4");
    board.move_str("e7e5");
    assert_eq!(0, board.heuristic_value());
    board.move_str("b1c3");
    board.move_str("b8c6");
    assert_eq!(0, board.heuristic_value());
    board.move_str("f1c5");
    board.move_str("f8c4");
    assert_eq!(0, board.heuristic_value());
}

#[test]
fn value_of_should_yield_same_value_as_heurestic() {
    let mut board = Board::new();
    for _ in 1..=20 {
        let mut ms = board.moves();
        ms.shuffle();
        if ms.len() == 0 {
            break;
        }
        let first = ms.0[0].clone();
        for m in ms.0.iter() {
            assert_eq!(m.heuristic_value(), board.value_of(m), "\n{}{}", board.to_string(), m.to_string());
        }
        board.move_piece(&first);
    }
}

#[test]
fn knight_gets_points_for_capturing() {
    let s = "r-bqkbnr\npppppppp\n--n-----\n--------\n-P---P--\n--------\nP-PPP-PP\nRNBQKBNR";
    let mut b = Board::custom(s, Color::Black);
    let ms = b.moves();
    let m1 = ms.0[ms.len() - 1];
    let m2 = mv("c6b4");
    assert_eq!(m1.heuristic_value(), b.value_of(&m2));
}

#[test]
fn queen_count() {
    let mut b = Board::new();
    assert_eq!(2, b.queen_count());
    b.move_str("e2e4");
    b.move_str("e7e5");
    b.move_str("d1f3");
    b.move_str("d8f6");
    assert_eq!(2, b.queen_count());
    b.move_str("f3f6");
    assert_eq!(1, b.queen_count());
    assert!(!b.is_endgame());
    b.move_str("g8f6");
    assert_eq!(0, b.queen_count());
    assert!(b.is_endgame());
    b.go_back();
    assert_eq!(1, b.queen_count());
    b.go_back();
    assert_eq!(2, b.queen_count());
}

#[test]
fn inital_castle() {
    let mut board = Board::new();
    let castle = board.castling_rights();
    assert!(castle.0 && castle.1 && castle.2 && castle.3);
    let moves = board.moves();
    assert!(!moves.contains(&mv("e1g1")));
    assert!(!moves.contains(&mv("e8g8")));
    board.move_piece(&mv("e2e4"));
    assert!(!moves.contains(&mv("e1c1")));
    assert!(!moves.contains(&mv("e1c8")));
}

#[test]
fn custom_board_castle() {
    let setup = "-nbqkbnr\npppppppp\n--------\n--------\n----P---\n--------\nPPPP-PPP\nRNBQKBN-";
    let board = Board::custom(setup, Color::White);
    let castle = board.castling_rights();
    assert!(!castle.0 && castle.1 && castle.2 && !castle.3);
}

#[test]
fn can_castle_short_when_not_obstructed() {
    let board = Board::new();
    assert_eq!(0, board.castle_moves().len());
    let board = Board::custom("rnbqkbnr\npppppppp\n--------\n--------\n--------\n--------\nPPPPPPPP\nRNBQKB-R", Color::White);
    assert_eq!(0, board.castle_moves().len());
    let mut board = Board::custom("rnbqkbnr\npppppppp\n--------\n--------\n--------\n--------\nPPPPPPPP\nRNBQK--R", Color::White);
    assert!(board.moves().contains(&mv("e1g1")));
    let board = Board::custom("rnbqkbnr\npppppppp\n--------\n--------\n--------\n--------\nPPPPPPPP\nRNBQK--R", Color::Black);
    assert_eq!(0, board.castle_moves().len());
    let mut board = Board::custom("rnbqk--r\npppppppp\n--------\n--------\n--------\n--------\nPPPPPPPP\nRNBQK--R", Color::Black);
    assert!(board.moves().contains(&mv("e8g8")));
}

#[test]
fn can_castle_long_when_not_obstructed() {
    let white_rows = ["RNBQKBNR", "R-BQKBNR", "R--QKBNR", "R---KBNR"];
    let board = Board::custom(&format!("rnbqkbnr\npppppppp\n--------\n--------\n--------\n--------\nPPPPPPPP\n{}", white_rows[0]), Color::White);
    assert_eq!(0, board.castle_moves().len());
    let board = Board::custom(&format!("rnbqkbnr\npppppppp\n--------\n--------\n--------\n--------\nPPPPPPPP\n{}", white_rows[1]), Color::White);
    assert_eq!(0, board.castle_moves().len());
    let board = Board::custom(&format!("rnbqkbnr\npppppppp\n--------\n--------\n--------\n--------\nPPPPPPPP\n{}", white_rows[2]), Color::White);
    assert_eq!(0, board.castle_moves().len());
    let board = Board::custom(&format!("rnbqkbnr\npppppppp\n--------\n--------\n--------\n--------\nPPPPPPPP\n{}", white_rows[3]), Color::White);
    assert!(board.castle_moves().contains(&mv("e1c1")));

    for (black_row, can) in [("rnbqkbnr", false), ("rnb-kbnr", false), ("rn--kbnr", false), ("r---kbnr", true)] {
        let board = Board::custom(&format!("{}\npppppppp\n--------\n--------\n--------\n--------\nPPPPPPPP\nR---KBNR", black_row), Color::Black);
        if can {
            assert!(board.castle_moves().contains(&mv("e8c8")));
        } else {
            assert_eq!(0, board.castle_moves().len());
        }
    }
}

#[test]
fn moving_rook_disallows_castling() {
    let mut board = Board::custom(SIMPLE, Color::White);
    let c = board.castling_rights();
    assert!(c.0 && c.1 && c.2 && c.3);
    board.move_piece(&mv("h1g1"));
    let c = board.castling_rights();
    assert!(!c.0);
    board.move_piece(&mv("a8d8"));
    board.move_piece(&mv("a1c1"));
    let c = board.castling_rights();
    assert!(!c.0 && !c.1 && c.2 && !c.3);
}

#[test]
fn moving_king_disallows_castling() {
    let mut board = Board::custom(SIMPLE, Color::White);
    board.move_piece(&mv("e1f1"));
    let c = board.castling_rights();
    assert!(!c.0 && !c.1 && c.2 && c.3);
    board.move_piece(&mv("e8d8"));
    let c = board.castling_rights();
    assert!(!c.0 && !c.1 && !c.2 && !c.3);
}

#[test]
fn castling_also_moves_the_rook() {
    let mut board = Board::custom(SIMPLE, Color::White);
    board.move_piece(&mv("e1g1"));
    assert_eq!(board.get_reference_at(4, 7), &None);
    assert_eq!(board.get_reference_at(7, 7), &None);
    assert_eq!(board.get_reference_at(6, 7), &Piece::new('K'));
    assert_eq!(board.get_reference_at(5, 7), &Piece::new('R'));
    board.move_piece(&mv("e8c8"));
    assert_eq!(board.get_reference_at(0, 0), &None);
    assert_eq!(board.get_reference_at(1, 0), &None);
    assert_eq!(board.get_reference_at(4, 0), &None);
    assert_eq!(board.get_reference_at(3, 0), &Piece::new('r'));
    assert_eq!(board.get_reference_at(2, 0), &Piece::new('k'));
    board.go_back();
    board.go_back();
    assert_eq!(board.get_reference_at(4, 7), &Piece::new('K'));
    assert_eq!(board.get_reference_at(7, 7), &Piece::new('R'));
    assert_eq!(board.get_reference_at(6, 7), &None);
    assert_eq!(board.get_reference_at(5, 7), &None);
    board.move_piece(&mv("e1c1"));
    assert_eq!(board.get_reference_at(0, 7), &None);
    assert_eq!(board.get_reference_at(1, 7), &None);
    assert_eq!(board.get_reference_at(2, 7), &Piece::new('K'));
    assert_eq!(board.get_reference_at(3, 7), &Piece::new('R'));
    assert_eq!(board.get_reference_at(4, 7), &None);
    board.move_piece(&mv("e8g8"));
    assert_eq!(board.get_reference_at(7, 0), &None);
    assert_eq!(board.get_reference_at(4, 0), &None);
    assert_eq!(board.get_reference_at(5, 0), &Piece::new('r'));
    assert_eq!(board.get_reference_at(6, 0), &Piece::new('k'));
}

#[test]
fn cannot_castle_when_in_check() {
    let mut board = Board::custom("r---k--r\npppppppp\n--------\n--------\n--------\n--------\nPPPPrPPP\nR---K--R", Color::White);
    assert!(!board.moves().contains(&mv("e1g1")));
}

#[test]
fn cannot_castle_through_check() {
    let mut board = Board::custom("r---k--r\npppRpppp\n--------\n--------\n--------\n--------\nPPPPPPPP\nR---K--R", Color::Black);
    assert!(!board.moves().contains(&mv("e8c8")));
}

#[test]
fn cannot_castle_into_check() {
    let mut board = Board::custom("r---k--r\npppppppp\n--------\n--------\n--------\n--------\nPPrPPPPP\nR---K--R", Color::Black);
    assert!(!board.moves().contains(&mv("e1c1")));
}

#[test]
fn just_e4() {
    let mut board = Board::new();
    let expected = Board::custom(E4, Color::Black);
    board.move_piece(&mv("e2e4"));
    assert_eq!(board.grid(), expected.grid());
}

#[test]
fn e4_and_back() {
    let mut board = Board::new();
    board.move_piece(&mv("e2e4"));
    board.go_back();
    assert_eq!(board, Board::new());
}

#[test]
fn e4_c5_and_back() {
    let mut board = Board::new();
    board.move_piece(&mv("e2e4"));
    assert_eq!(board.grid(), Board::custom(E4, Color::Black).grid());
    board.move_piece(&mv("c7c5"));
    assert_eq!(board.grid(), Board::custom(E4C5, Color::White).grid());
    board.go_back();
    assert_eq!(board.grid(), Board::custom(E4, Color::Black).grid());
    board.go_back();
    assert_eq!(board, Board::new());
}

#[test]
fn board_piece_capture() {
    let e2e7 = "rnbqkbnr\nppppPppp\n--------\n--------\n--------\n--------\nPPPP-PPP\nRNBQKBNR";
    let mut board = Board::new();
    board.move_piece(&mv("e2e7"));
    assert_eq!(board.grid(), Board::custom(e2e7, Color::Black).grid());
    board.go_back();
    assert_eq!(board, Board::new());
}

#[test]
#[should_panic]
fn cannot_go_back_from_inital_state() {
    let mut board = Board::new();
    board.go_back();
}

#[test]
fn e4_c5_back_c6_back_back() {
    let mut board = Board::new();
    board.move_piece(&mv("e2e4"));
    assert_eq!(board.grid(), Board::custom(E4, Color::Black).grid());
    board.move_piece(&mv("c7c5"));
    assert_eq!(board.grid(), Board::custom(E4C5, Color::White).grid());
    board.go_back();
    board.move_piece(&mv("c7c6"));
    assert_eq!(board.grid(), Board::custom(E4C6, Color::White).grid());
    board.go_back();
    board.go_back();
    assert_eq!(board, Board::new());
}

#[test]
fn zobrist_doesnt_crash() {
    let board = Board::new();
    let zob = Zobrist::new(&board.grid(), Color::White);
    assert_eq!(zob.hash(), board.hash());
}

#[test]
fn moving_piece_changes_hash() {
    let mut board = Board::new();
    let hash1 = board.hash();
    board.move_str("e2e4");
    let hash2 = board.hash();
    assert_ne!(hash1, hash2);
}

#[test]
fn different_sequence_same_result_same_hash() {
    let mut board1 = Board::new();
    let mut board2 = Board::new();
    board1.move_str("e2e4");
    board1.move_str("e7e5");
    board1.move_str("d2d4");
    board1.move_str("b8c6");
    board2.move_str("d2d4");
    board2.move_str("e7e5");
    board2.move_str("e2e4");
    board2.move_str("b8c6");
    assert_eq!(board1.grid(), board2.grid());
    assert_eq!(board1.hash(), board2.hash());
}

#[test]
fn zobrist_handles_castling_rights() {
    let mut board1 = Board::new();
    let mut board2 = Board::new();
    board1.move_str("e2e4");
    board1.move_str("e7e5");
    board1.move_str("e1e2");
    board1.move_str("b8c6");
    board1.move_str("e2e1");
    board2.move_str("e2e4");
    board2.move_str("e7e5");
    board2.move_str("d1e2");
    board2.move_str("b8c6");
    board2.move_str("e2d1");
    assert_eq!(board1.grid(), board2.grid());
    assert_ne!(board1.hash(), board2.hash());
}

#[test]
fn moving_back_gives_same_hash() {
    let mut board = Board::new();
    let hash1 = board.hash();
    board.move_str("b1c3");
    board.move_str("g8f6");
    let hash2 = board.hash();
    board.move_str("c3b1");
    board.move_str("f6g8");
    let hash3 = board.hash();
    assert_ne!(hash1, hash2);
    assert_eq!(hash1, hash3);
}

#[test]
fn zobrist_handles_en_passant() {
    let pp = "rnbqkbnr\npppppppp\n--------\n--------\n--------\n-------P\nPPPPPPP-\nRNBQKBNR";
    let mut board1 = Board::new();
    let mut board2 = Board::custom(pp, Color::White);
    assert_ne!(board1.hash(), board2.hash());
    board1.move_str("h2h4");
    board2.move_str("h3h4");
    assert_eq!(board1.grid(), board2.grid());
    assert_ne!(board1.hash(), board2.hash());
    board1.move_str("a7a6");
    board2.move_str("a7a6");
    assert_eq!(board1.hash(), board2.hash());
}

#[test]
fn different_moves_same_position() {
    let mut french = Board::new();
    let mut petrov = Board::new();
    for m in ["e2e4", "e7e6", "d2d4", "d7d5", "e4d5", "e6d5", "g1f3", "g8f6"] {
        french.move_str(m);
    }
    for m in ["e2e4", "e7e5", "g1f3", "g8f6", "f3e5", "d7d6", "e5f3", "f6e4", "d2d3", "e4f6", "d3d4", "d6d5"] {
        petrov.move_str(m);
    }
    assert_ne!(french, petrov);
    assert_eq!(french.hash(), petrov.hash());
}

#[test]
fn move_str_refuses_illegal_moves() {
    let mut board = Board::new();
    assert_eq!(board.move_str("e2e5"), None);
    assert_eq!(board, Board::new());
    assert_eq!(board.move_str("z9z9"), None);
    assert_eq!(board.move_str("e2e4"), Some(()));
    assert_eq!(board.counter(), 1);
    assert_eq!(board.color_to_move(), Color::Black);
}

#[test]
fn end_score_of_stalemate_is_zero() {
    let board = Board::custom("k-------\n--Q-----\n-K------\n--------\n--------\n--------\n--------\n--------", Color::Black);
    let mut b = board.clone();
    assert!(b.is_checkmate());
    assert_eq!(board.end_score(), 0);
    assert_eq!(board.winner(), None);
}
