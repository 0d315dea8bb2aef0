use connect_four::ai::alpha_beta::{AlphaBeta, MAX_SCORE};
use connect_four::ai::minimax::minimax;
use connect_four::board::Board;

fn position(moves: &[usize]) -> Board {
    let mut b = Board::new();
    for &col in moves {
        assert!(b.make_move(col));
        assert!(!b.is_game_over(b.bit_board[0]));
        assert!(!b.is_game_over(b.bit_board[1]));
    }
    b
}

/// Full-width search that finds a win by making the move and looking for
/// four in a row.
fn by_scan(board: &Board, depth: u8) -> i8 {
    if board.is_draw() || depth == 0 {
        return 0;
    }
    let mover = (board.counter % 2) as usize;
    let mut next = Vec::new();
    for col in 0..7 {
        let mut b = *board;
        if b.make_move(col) {
            if b.is_game_over(b.bit_board[mover]) {
                return (43 - board.counter) / 2;
            }
            next.push(b);
        }
    }
    next.iter().map(|b| -by_scan(b, depth - 1)).max().unwrap()
}

const MIDGAME_20: [usize; 20] = [4, 3, 2, 5, 0, 0, 6, 2, 3, 2, 1, 5, 4, 2, 3, 6, 2, 2, 0, 1];
const MIDGAME_12: [usize; 12] = [5, 4, 4, 0, 5, 4, 0, 5, 5, 3, 2, 6];
const LOSING_20: [usize; 20] = [0, 4, 1, 3, 0, 5, 0, 1, 4, 4, 6, 3, 6, 0, 0, 1, 2, 1, 1, 6];
const MIDGAME_16: [usize; 16] = [1, 3, 0, 5, 0, 3, 4, 4, 2, 1, 3, 0, 0, 3, 4, 0];
const LATE_28: [usize; 28] = [
    4, 3, 2, 4, 1, 0, 4, 5, 1, 0, 1, 2, 0, 1, 1, 2, 5, 2, 4, 1, 3, 6, 5, 4, 3, 4, 0, 5,
];
const LATE_32: [usize; 32] = [
    6, 3, 5, 3, 0, 5, 5, 3, 1, 1, 0, 2, 1, 6, 0, 0, 2, 6, 5, 2, 5, 0, 2, 6, 6, 5, 6, 4, 2, 2, 1, 0,
];
const LATE_36: [usize; 36] = [
    6, 1, 0, 1, 5, 3, 5, 1, 2, 0, 6, 6, 2, 3, 3, 5, 4, 2, 2, 4, 2, 4, 2, 0, 3, 4, 3, 3, 5, 5, 6, 5,
    4, 0, 6, 4,
];

#[test]
fn minimax_gives_the_known_values() {
    let cases: [(&[usize], [i8; 7]); 7] = [
        (&MIDGAME_20, [0, 0, 0, 0, 0, 9, 9]),
        (&LATE_28, [0, 0, 0, 0, 0, 5, 5]),
        (&MIDGAME_12, [0, 0, 0, 14, 14, 14, 14]),
        (&LOSING_20, [0, 0, -11, -11, -11, -11, -11]),
        (&MIDGAME_16, [0, 0, 0, 0, 0, 11, 11]),
        (&LATE_32, [0, 0, -5, -5, -5, -5, -5]),
        (&LATE_36, [0, 0, -3, -3, -3, -3, -3]),
    ];
    for (moves, values) in cases.iter() {
        let board = position(moves);
        for depth in 0..7u8 {
            assert_eq!(minimax(&board, depth), values[depth as usize]);
        }
    }
}

#[test]
fn minimax_agrees_with_the_scan() {
    for moves in [&MIDGAME_20[..], &MIDGAME_12[..], &LOSING_20[..], &LATE_32[..], &[3, 3, 3][..]] {
        let board = position(moves);
        for depth in 0..6u8 {
            assert_eq!(minimax(&board, depth), by_scan(&board, depth));
        }
    }
}

#[test]
fn negamax_with_a_full_window_agrees_with_minimax() {
    let lines: [&[usize]; 9] = [
        &[],
        &[3, 3, 3],
        &MIDGAME_12,
        &MIDGAME_16,
        &MIDGAME_20,
        &LOSING_20,
        &LATE_28,
        &LATE_32,
        &LATE_36,
    ];
    let mut engine = AlphaBeta::new();
    for moves in lines.iter() {
        let board = position(moves);
        for depth in 0..7u8 {
            engine.reset();
            let score = engine.negamax(&board, depth, -MAX_SCORE, MAX_SCORE);
            assert_eq!(score, minimax(&board, depth), "{:?} at depth {}", moves, depth);
        }
    }
}

#[test]
fn negamax_with_the_narrowest_full_window_agrees_with_minimax() {
    let mut engine = AlphaBeta::new();
    for moves in [&MIDGAME_12[..], &LOSING_20[..], &LATE_36[..]] {
        let board = position(moves);
        let low = -((42 - board.counter) / 2);
        let high = (43 - board.counter) / 2;
        for depth in 0..7u8 {
            engine.reset();
            assert_eq!(engine.negamax(&board, depth, low, high), minimax(&board, depth));
        }
    }
}

#[test]
fn negamax_to_the_end_of_the_game() {
    let mut engine = AlphaBeta::new();
    let board = position(&LATE_36);
    assert_eq!(engine.negamax(&board, 6, -MAX_SCORE, MAX_SCORE), -3);
    engine.reset();
    assert_eq!(engine.negamax(&board, 30, -MAX_SCORE, MAX_SCORE), -3);
    engine.reset();
    let board = position(&LATE_32);
    assert_eq!(engine.negamax(&board, 10, -MAX_SCORE, MAX_SCORE), minimax(&board, 10));
}

#[test]
fn bounds_of_a_shallower_search_are_not_true_of_a_deeper_one() {
    let mut engine = AlphaBeta::new();
    let board = position(&MIDGAME_20);
    // one ply deep the position is worth nothing, and the table says so
    assert_eq!(engine.negamax(&board, 1, -MAX_SCORE, MAX_SCORE), 0);
    // five plies deep it is worth 9, but the bound of the first search stands
    assert_eq!(engine.negamax(&board, 5, -MAX_SCORE, MAX_SCORE), 0);
    assert_eq!(minimax(&board, 5), 9);
    engine.reset();
    assert_eq!(engine.negamax(&board, 5, -MAX_SCORE, MAX_SCORE), 9);
}

#[test]
fn negamax_keeps_to_a_narrow_window() {
    let mut engine = AlphaBeta::new();
    // worth 14 at depth 3
    let board = position(&MIDGAME_12);
    let score = engine.negamax(&board, 3, 0, 1);
    assert!(score >= 1 && score <= 14);
    engine.reset();
    let score = engine.negamax(&board, 3, 13, 15);
    assert_eq!(score, 14);
    engine.reset();
    let score = engine.negamax(&board, 3, 14, 15);
    assert!(score >= 14 && score <= 14);
    // worth -11 at depth 2
    let board = position(&LOSING_20);
    engine.reset();
    let score = engine.negamax(&board, 2, -1, 0);
    assert!(score <= -1 && score >= -11);
    engine.reset();
    let score = engine.negamax(&board, 2, -12, -10);
    assert_eq!(score, -11);
}

#[test]
fn a_win_at_once_scores_by_the_moves_played() {
    let mut engine = AlphaBeta::new();
    let mut board = Board::new();
    for col in [0, 1, 0, 1, 0, 1] {
        board.make_move(col);
    }
    // (42 + 1 - 6) / 2
    assert_eq!(engine.negamax(&board, 1, -MAX_SCORE, MAX_SCORE), 18);
    assert_eq!(minimax(&board, 1), 18);
    assert_eq!(engine.negamax(&board, 0, -MAX_SCORE, MAX_SCORE), 0);
    let mut board = Board::new();
    for col in [0, 1, 0, 1, 0, 1, 6] {
        board.make_move(col);
    }
    // (42 + 1 - 7) / 2
    assert_eq!(engine.negamax(&board, 5, -MAX_SCORE, MAX_SCORE), 18);
    board.make_move(6);
    // (42 + 1 - 8) / 2
    assert_eq!(engine.negamax(&board, 5, -MAX_SCORE, MAX_SCORE), 17);
}

#[test]
fn a_loss_at_the_next_move_scores_the_opponents_win() {
    // the first player threatens the bottom row on both sides
    let mut board = Board::new();
    for col in [2, 2, 3, 3, 4] {
        board.make_move(col);
    }
    let mut engine = AlphaBeta::new();
    assert_eq!(engine.negamax(&board, 1, -MAX_SCORE, MAX_SCORE), 0);
    engine.reset();
    // -(42 + 1 - 6) / 2
    assert_eq!(engine.negamax(&board, 2, -MAX_SCORE, MAX_SCORE), -18);
    assert_eq!(minimax(&board, 2), -18);
}

#[test]
fn a_full_board_scores_nothing() {
    let mut board = Board::new();
    // three columns one way, the next the other: no four in a row
    for col in [0, 1, 2, 4, 5, 6] {
        for _ in 0..6 {
            board.make_move(col);
        }
    }
    for _ in 0..6 {
        board.make_move(3);
    }
    assert!(board.is_draw());
    let mut engine = AlphaBeta::new();
    assert_eq!(engine.negamax(&board, 5, -MAX_SCORE, MAX_SCORE), 0);
    assert_eq!(minimax(&board, 5), 0);
}

#[test]
fn negamax_counts_the_positions_it_visits() {
    let mut engine = AlphaBeta::new();
    assert_eq!(engine.nodes_explored(), 0);
    let board = Board::new();
    engine.negamax(&board, 0, -MAX_SCORE, MAX_SCORE);
    assert_eq!(engine.nodes_explored(), 1);
    engine.negamax(&board, 1, -MAX_SCORE, MAX_SCORE);
    // the root and its seven children
    assert_eq!(engine.nodes_explored(), 9);
    engine.reset();
    assert_eq!(engine.nodes_explored(), 0);
}

#[test]
fn candidates_are_the_safe_moves_or_all() {
    let board = position(&[0, 6, 1, 6, 2]);
    let tried = AlphaBeta::candidates(&board);
    assert_eq!(tried.len(), 1);
    assert_eq!(tried[0].height[3], 22);
    let mut board = Board::new();
    for col in [2, 2, 3, 3, 4] {
        board.make_move(col);
    }
    let tried = AlphaBeta::candidates(&board);
    assert_eq!(tried.len(), 7);
    assert_eq!(tried[0].height[3], 24);
    assert_eq!(tried[6].height[0], 1);
}
