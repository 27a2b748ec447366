use chessbot5::ai::alphabeta::AlphaBeta;
use chessbot5::ai::interface::AI as FirstAI;
use chessbot5::ai::memomax::MemoMax as FirstMemoMax;
use chessbot5::ai::minimax::MiniMax;
use chessbot5::backend::ai::interface::AI;
use chessbot5::backend::ai::memomax::MemoMax;
use chessbot5::backend::ai::negaalpha::NegaAlpha;
use chessbot5::backend::ai::negaalphakiller::NegaAlphaKiller;
use chessbot5::backend::ai::negaquiescence::NegaQuiescence;
use chessbot5::backend::ai::pvs::PVS;
use chessbot5::backend::ai::omikron::Omikron;
use chessbot5::backend::ai::structures::database::Database;
use chessbot5::backend::ai::negamax::NegaMax;
use chessbot5::backend::ai::negamemomax::NegaMemoMax;
use chessbot5::backend::board::{Board, Move};
use chessbot5::backend::piece::Color;

fn mv(s: &str) -> Move {
    Move::from_str(s).unwrap()
}

const MATE_IN_ONE: &str = "k-------\n------R-\n-------R\n--------\n--------\n--------\n--------\n------K-";

#[test]
fn minimax_and_negamax_pick_the_same_move() {
    let mut board = Board::new();
    for d in 1..=3 {
        let mut normal = MiniMax::new();
        normal.set_depth(d);
        let mut nega = NegaMax::new();
        nega.set_depth(d);
        assert_eq!(normal.search(board.clone()), nega.search(board.clone()), "depth {}", d);
    }
    board.move_str("e2e4").unwrap();
    board.move_str("e7e5").unwrap();
    board.move_str("e1e2").unwrap();
    for d in 1..=3 {
        let mut normal = MiniMax::new();
        normal.set_depth(d);
        let mut nega = NegaMax::new();
        nega.set_depth(d);
        assert_eq!(normal.search(board.clone()), nega.search(board.clone()), "depth {}", d);
    }
}

#[test]
fn alphabeta_and_negaalpha_pick_the_same_move() {
    let board = Board::new();
    for d in 1..=4 {
        let mut normal = AlphaBeta::new();
        normal.set_depth(d);
        let mut nega = NegaAlpha::new();
        nega.set_depth(d);
        assert_eq!(normal.search(board.clone()), nega.search(board.clone()), "depth {}", d);
    }
}

#[test]
fn bots_take_a_mate_in_one() {
    let board = Board::custom(MATE_IN_ONE, Color::White);
    let expected = mv("h6h8");
    let mut minimax = MiniMax::new();
    minimax.set_depth(2);
    assert_eq!(minimax.search(board.clone()), expected);
    let mut negamax = NegaMax::new();
    negamax.set_depth(2);
    assert_eq!(negamax.search(board.clone()), expected);
    let mut alphabeta = AlphaBeta::new();
    alphabeta.set_depth(2);
    assert_eq!(alphabeta.search(board.clone()), expected);
    let mut negaalpha = NegaAlpha::new();
    negaalpha.set_depth(2);
    assert_eq!(negaalpha.search(board.clone()), expected);
    let mut memomax = MemoMax::new();
    memomax.set_depth(2);
    assert_eq!(memomax.search(board.clone()), expected);
}

#[test]
fn negamemomax_scores_finished_games_for_white() {
    // Without moves it returns the end score as White sees it, so a mate it gives as White
    // counts against it once negated.
    let board = Board::custom(MATE_IN_ONE, Color::White);
    let mut negamemomax = NegaMemoMax::new();
    negamemomax.set_depth(2);
    assert_ne!(negamemomax.search(board.clone()), mv("h6h8"));
}

#[test]
fn memo_bots_pick_legal_moves() {
    let mut board = Board::new();
    let mut first = FirstMemoMax::new();
    let m = first.search(board.clone());
    assert!(board.moves().contains(&m));
    board.move_piece(&m);
    let mut memo = MemoMax::new();
    memo.set_depth(3);
    let m = memo.search(board.clone());
    assert!(board.moves().contains(&m));
    assert_eq!(memo.get_name(), "MemoMax");
    assert_eq!(NegaMemoMax::new().get_name(), "NegaMemoMax");
}

#[test]
fn draw_by_repetition_is_seen() {
    let mut board = Board::new();
    assert!(!board.is_draw_by_repetition());
    for _ in 0..2 {
        board.move_str("b1c3");
        board.move_str("g8f6");
        board.move_str("c3b1");
        board.move_str("f6g8");
    }
    assert!(board.is_draw_by_repetition());
    assert_eq!(board.symmetric_heuristic_value(), board.heuristic_value());
}

#[test]
fn a_distant_king_on_a_diagonal_does_not_attack() {
    let mut board = Board::custom("-------k\n--------\n--------\n--------\n--------\n--------\n--------\nK-------", Color::White);
    assert!(board.is_legal(&mv("a1b2")));
    let mut board = Board::custom("k-------\n------R-\n-------R\n--------\n--------\n--------\n--------\n-------K", Color::White);
    assert!(board.moves().contains(&mv("h6h8")));
    let mut near = Board::custom("--------\n-k------\n--K-----\n--------\n--------\n--------\n--------\n--------", Color::White);
    assert!(!near.is_legal(&mv("c6b6")));
}

#[test]
fn bots_know_their_names() {
    assert_eq!(NegaMax::new().get_name(), "NegaMax");
    assert_eq!(NegaAlpha::new().get_name(), "NegaAlpha");
    assert_eq!(MemoMax::new().get_name(), "MemoMax");
    assert_eq!(NegaMemoMax::new().get_name(), "NegaMemoMax");
}

#[test]
fn negaalpha_and_negamax_agree_where_one_move_wins() {
    let board = Board::custom(MATE_IN_ONE, Color::White);
    for d in 2..=3 {
        let mut negamax = NegaMax::new();
        negamax.set_depth(d);
        let mut negaalpha = NegaAlpha::new();
        negaalpha.set_depth(d);
        assert_eq!(negamax.search(board.clone()), mv("h6h8"));
        assert_eq!(negaalpha.search(board.clone()), mv("h6h8"));
    }
}

fn memo_bots_return_the_same_move(board: &Board, depth: usize, normal: &mut MemoMax, nega: &mut NegaMemoMax) {
    for d in 1..=depth {
        normal.set_depth(d);
        nega.set_depth(d);
        let m1 = normal.search(board.clone());
        let m2 = nega.search(board.clone());
        assert_eq!(m1, m2, "depth {}", d);
    }
}

#[test]
fn memomax_negamemomax_same_move() {
    let mut normal = MemoMax::new();
    let mut nega = NegaMemoMax::new();
    let mut board = Board::new();
    memo_bots_return_the_same_move(&board, 4, &mut normal, &mut nega);
    board.move_str("e2e4").unwrap();
    board.move_str("e7e5").unwrap();
    board.move_str("e1e2").unwrap();
    memo_bots_return_the_same_move(&board, 4, &mut normal, &mut nega);
}

#[test]
fn a_memo_bot_reuses_what_it_remembered() {
    // Searching the same board again with the memo it left gives the same move.
    let board = Board::new();
    let mut memo = MemoMax::new();
    memo.set_depth(3);
    let first = memo.search(board.clone());
    assert_eq!(memo.search(board.clone()), first);
    let mut nega = NegaMemoMax::new();
    nega.set_depth(3);
    let first = nega.search(board.clone());
    assert_eq!(nega.search(board.clone()), first);
}

#[test]
fn negaalphakiller_takes_a_mate_in_one() {
    let board = Board::custom(MATE_IN_ONE, Color::White);
    for d in 2..=4 {
        let mut killer = NegaAlphaKiller::new();
        killer.set_depth(d);
        assert_eq!(killer.search(board.clone()), mv("h6h8"), "depth {}", d);
    }
    assert_eq!(NegaAlphaKiller::new().get_name(), "NegaAlphaKiller");
}

#[test]
fn negaalphakiller_picks_legal_moves_with_what_it_remembers() {
    // One bot searches a short game with the memo and killer moves of the searches before.
    let mut board = Board::new();
    let mut killer = NegaAlphaKiller::new();
    killer.set_depth(4);
    for _ in 0..4 {
        let m = killer.search(board.clone());
        assert!(board.moves().contains(&m));
        board.move_piece(&m);
    }
}

#[test]
fn negaalphakiller_agrees_with_negaalpha_where_one_move_wins() {
    let board = Board::custom(MATE_IN_ONE, Color::White);
    let mut killer = NegaAlphaKiller::new();
    killer.set_depth(3);
    let mut plain = NegaAlpha::new();
    plain.set_depth(3);
    assert_eq!(killer.search(board.clone()), plain.search(board.clone()));
}

#[test]
fn negaquiescence_picks_legal_moves() {
    let mut board = Board::new();
    let mut bot = NegaQuiescence::new();
    bot.set_depth(3);
    for _ in 0..4 {
        let m = bot.search(board.clone());
        assert!(board.moves().contains(&m));
        board.move_piece(&m);
    }
    assert_eq!(bot.get_name(), "NegaQuiescence");
}

#[test]
fn negaquiescence_takes_a_free_queen() {
    // White's rook can take an undefended queen; the quiescence estimate sees the gain.
    let board = Board::custom("k-------\n--------\n--------\n---q----\n--------\n--------\n--------\n---R---K", Color::White);
    let mut bot = NegaQuiescence::new();
    bot.set_depth(2);
    assert_eq!(bot.search(board.clone()), mv("d1d5"));
}

#[test]
fn pvs_takes_a_mate_in_one() {
    let board = Board::custom(MATE_IN_ONE, Color::White);
    for d in 3..=4 {
        let mut bot = PVS::new();
        bot.set_depth(d);
        assert_eq!(bot.search(board.clone()), mv("h6h8"), "depth {}", d);
    }
    assert_eq!(PVS::new().get_name(), "PVS");
}

#[test]
fn pvs_picks_legal_moves_for_both_sides() {
    let mut board = Board::new();
    let mut bot = PVS::new();
    bot.set_depth(3);
    for _ in 0..4 {
        let m = bot.search(board.clone());
        assert!(board.moves().contains(&m));
        board.move_piece(&m);
    }
}

#[test]
fn principal_variations_start_with_the_move_picked() {
    let board = Board::new();
    let mut a = NegaAlphaKiller::new();
    a.set_depth(3);
    let mut b = NegaAlphaKiller::new();
    b.set_depth(3);
    let pv = a.principal_variation(board.clone());
    assert!(pv.len() >= 1 && pv.len() <= 3);
    assert_eq!(pv.0[0], b.search(board.clone()));
    let mut replay = board.clone();
    for m in pv.0.iter() {
        assert!(replay.moves().contains(m));
        replay.move_piece(m);
    }
    let mut p = PVS::new();
    p.set_depth(3);
    let mut q = PVS::new();
    q.set_depth(3);
    let pv = p.principal_variation(board.clone());
    assert!(pv.len() >= 1 && pv.len() <= 3);
    assert_eq!(pv.0[0], q.search(board.clone()));
    let mut n = NegaQuiescence::new();
    n.set_depth(3);
    let mut o = NegaQuiescence::new();
    o.set_depth(3);
    let pv = n.principal_variation(board.clone());
    assert!(pv.len() <= 3);
    if pv.len() > 0 {
        assert_eq!(pv.0[0], o.search(board.clone()));
    }
}

#[test]
fn omikron_takes_a_mate_in_one() {
    let board = Board::custom(MATE_IN_ONE, Color::White);
    let mut bot = Omikron::new();
    bot.set_depth(3);
    bot.set_time(100);
    assert_eq!(bot.search(board.clone()), mv("h6h8"));
    assert_eq!(bot.get_name(), "Omikron");
}

#[test]
fn omikron_plays_from_its_book_first() {
    let start = Board::new().hash();
    let text = format!("{} a2a3\n", start);
    let mut bot = Omikron::new();
    bot.set_book(Database::from_text(&text).unwrap());
    bot.set_depth(2);
    assert_eq!(bot.search(Board::new()), mv("a2a3"));
}

#[test]
fn omikron_picks_legal_moves_for_both_sides() {
    let mut board = Board::new();
    let mut bot = Omikron::new();
    bot.set_depth(3);
    bot.set_time(100);
    for _ in 0..4 {
        let m = bot.search(board.clone());
        assert!(board.moves().contains(&m));
        board.move_piece(&m);
    }
}

#[test]
fn omikron_with_no_time_still_answers() {
    // With no time at all no search runs, and the first legal move is given.
    let board = Board::new();
    let mut bot = Omikron::new();
    bot.set_depth(6);
    bot.set_time(0);
    let mut b2 = board.clone();
    let m = bot.search(board);
    assert!(b2.moves().contains(&m));
}
