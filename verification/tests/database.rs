use chessbot5::backend::ai::structures::database::{Database, OpeningBook};
use chessbot5::backend::board::Board;
use chessbot5::backend::board_representation::movement::Move;

fn mv(s: &str) -> Move {
    Move::from_str(s).unwrap()
}

#[test]
fn book_gives_a_listed_move_for_the_start() {
    let start = Board::new().hash();
    let text = format!("{} e2e4 d2d4 g1f3\n", start);
    let d = Database::from_text(&text).unwrap();
    assert_eq!(d.len(), 1);
    let mut b = Board::new();
    for _ in 0..10 {
        let m = d.get(&mut b).unwrap();
        assert!(m == mv("e2e4") || m == mv("d2d4") || m == mv("g1f3"));
        assert_eq!(m.heuristic_value(), b.value_of(&m));
    }
    assert_eq!(b, Board::new());
}

#[test]
fn book_only_good_moves_after_three_moves() {
    let mut b = Board::new();
    b.move_str("c2c4").unwrap();
    b.move_str("e7e5").unwrap();
    b.move_str("b1c3").unwrap();
    let text = format!("{} g8f6 f8b4 d7d6 b8c6 f7f5\n", b.hash());
    let d = Database::from_text(&text).unwrap();
    let expected = ["g8f6", "f8b4", "d7d6", "b8c6", "f7f5"];
    for _ in 0..6 {
        let m = d.get(&mut b).unwrap();
        assert!(expected.iter().any(|e| mv(e) == m));
    }
}

#[test]
fn book_knows_nothing_of_other_positions() {
    let d = Database::from_text("12345 e2e4\n").unwrap();
    assert_eq!(d.get(&mut Board::new()), None);
}

#[test]
fn book_refuses_an_illegal_move_it_picks() {
    let start = Board::new().hash();
    let d = Database::from_text(&format!("{} e2e5", start)).unwrap();
    assert_eq!(d.get(&mut Board::new()), None);
}

#[test]
fn book_stops_at_a_line_without_a_number() {
    let d = Database::from_text("1 e2e4\nxyz e2e4\n2 d2d4\n").unwrap();
    assert_eq!(d.len(), 1);
    let empty = Database::from_text("").unwrap();
    assert_eq!(empty.len(), 0);
}

#[test]
fn book_reads_signs_and_trims_line_ends() {
    let d = Database::from_text("-3 e2e4 \r\n+4 d2d4\t\n5\n").unwrap();
    assert_eq!(d.len(), 3);
}

#[test]
fn book_later_line_replaces_earlier() {
    let start = Board::new().hash();
    let d = Database::from_text(&format!("{} e2e4\n{} d2d4\n", start, start)).unwrap();
    assert_eq!(d.len(), 1);
    assert!(d.get(&mut Board::new()).unwrap() == mv("d2d4"));
}

#[test]
fn book_refuses_words_that_are_not_moves() {
    assert!(Database::from_text("1 e2e4 zz\n").is_none());
    assert!(Database::from_text("1 e2e4 e2e9\n").is_none());
    assert!(Database::from_text("1  e2e4\n").is_none());
    assert!(Database::from_text("1 e2e4\n2 e7e5x\n").is_none());
}

#[test]
fn book_keys_out_of_range_stop_reading() {
    assert_eq!(Database::from_text("9223372036854775808 e2e4\n").unwrap().len(), 0);
    assert_eq!(Database::from_text("-9223372036854775808 e2e4\n").unwrap().len(), 1);
    assert_eq!(Database::from_text("9223372036854775807 e2e4\n").unwrap().len(), 1);
    assert_eq!(Database::from_text("- e2e4\n").unwrap().len(), 0);
}

#[test]
fn book_offer_values_a_legal_move() {
    let mut b = Board::new();
    let m = Database::offer(&mut b, mv("e2e4")).unwrap();
    assert_eq!(m.heuristic_value(), b.value_of(&mv("e2e4")));
    assert_eq!(Database::offer(&mut b, mv("e2e5")), None);
}

#[test]
fn a_built_book_reads_back() {
    let mut book = OpeningBook::new();
    let mut b = Board::new();
    let start = b.hash();
    book.record(start, mv("e2e4"));
    b.move_str("e2e4").unwrap();
    let after = b.hash();
    book.record(after, mv("e7e5"));
    book.record(start, mv("d2d4"));
    book.record(start, mv("e2e4"));
    let text = book.text();
    assert_eq!(text, format!("{} e2e4 d2d4\n{} e7e5\n", start, after));
    let d = Database::from_text(&text).unwrap();
    assert_eq!(d.len(), 2);
    let m = d.get(&mut Board::new()).unwrap();
    assert!(m == mv("e2e4") || m == mv("d2d4"));
}
