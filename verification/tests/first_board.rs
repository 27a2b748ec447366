use chessbot5::board::{Board, Move};
use chessbot5::piece::{Color, Piece, PieceType};

const E4: &str = "rnbqkbnr\npppppppp\n--------\n--------\n----P---\n--------\nPPPP-PPP\nRNBQKBNR";
const C5: &str = "rnbqkbnr\npp-ppppp\n--------\n--p-----\n----P---\n--------\nPPPP-PPP\nRNBQKBNR";

#[test]
fn e2e4() {
    let mut board = Board::new();
    let expected = Board::custom_board(E4, Color::Black);
    board.move_piece(Move::new(4, 6, 4, 4));
    assert_eq!(board.grid(), expected.grid());
}

#[test]
fn e2e4_and_back() {
    let mut board = Board::new();
    board.move_piece(Move::new(4, 6, 4, 4));
    board.go_back();
    assert_eq!(board, Board::new());
}

#[test]
fn e2e4_c7c5_and_back() {
    let mut board = Board::new();

    board.move_piece(Move::new(4, 6, 4, 4));
    assert_eq!(board.grid(), Board::custom_board(E4, Color::Black).grid());

    board.move_piece(Move::new(2, 1, 2, 3));
    assert_eq!(board.grid(), Board::custom_board(C5, Color::White).grid());

    board.go_back();
    assert_eq!(board.grid(), Board::custom_board(E4, Color::Black).grid());

    board.go_back();
    assert_eq!(board, Board::new());
}

#[test]
fn first_board_piece_capture() {
    let e2e7 = "rnbqkbnr\nppppPppp\n--------\n--------\n--------\n--------\nPPPP-PPP\nRNBQKBNR";
    let mut board = Board::new();

    board.move_piece(Move::new(4, 6, 4, 1));
    assert_eq!(board.grid(), Board::custom_board(e2e7, Color::Black).grid());

    board.go_back();
    assert_eq!(board, Board::new());
}

#[test]
fn first_board_text_of_the_start() {
    let board = Board::new();
    assert_eq!(
        board.to_string(),
        "rnbqkbnr\npppppppp\n--------\n--------\n--------\n--------\nPPPPPPPP\nRNBQKBNR\n"
    );
}

#[test]
fn first_board_short_picture_leaves_the_rest_empty() {
    let board = Board::custom_board("K-\nk", Color::White);
    let g = board.grid();
    assert_eq!(g[0][0], Some(Piece { piecetype: PieceType::King, color: Color::White }));
    assert_eq!(g[0][1], None);
    assert_eq!(g[0][2], Some(Piece { piecetype: PieceType::King, color: Color::Black }));
    assert_eq!(g[7][7], None);
}

#[test]
fn first_board_move_onto_own_square_and_back() {
    let mut board = Board::new();
    board.move_piece(Move::new(0, 7, 0, 7));
    assert_eq!(board.grid(), Board::new().grid());
    board.go_back();
    assert_eq!(board, Board::new());
}

#[test]
fn first_board_two_captures_taken_back() {
    let mut board = Board::new();
    board.move_piece(Move::new(4, 6, 4, 1));
    board.move_piece(Move::new(3, 0, 4, 1));
    let text = board.to_string();
    assert_eq!(
        text,
        "rnb-kbnr\nppppqppp\n--------\n--------\n--------\n--------\nPPPP-PPP\nRNBQKBNR\n"
    );
    board.go_back();
    board.go_back();
    assert_eq!(board, Board::new());
}
