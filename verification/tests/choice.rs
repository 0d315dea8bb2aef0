use connect_four::ai::alpha_beta::AlphaBeta;
use connect_four::ai::choice::{
    choose_move, pick_best, pick_weighted, plays_best, search_depth, total_weight,
};
use connect_four::ai::random;
use connect_four::board::Board;
use connect_four::AIType;

fn played(moves: &[usize]) -> Board {
    let mut b = Board::new();
    for &col in moves {
        assert!(b.make_move(col));
    }
    b
}

fn column_of(before: &Board, after: &Board) -> usize {
    assert_eq!(after.counter, before.counter + 1);
    let mut found = None;
    for col in 0..7 {
        let mut b = *before;
        if b.make_move(col) && b.bit_board == after.bit_board && b.height == after.height {
            assert!(found.is_none());
            found = Some(col);
        }
    }
    found.expect("not one legal move away")
}

#[test]
fn pick_best_takes_the_first_of_the_highest() {
    assert_eq!(pick_best(&vec![3]), 0);
    assert_eq!(pick_best(&vec![1, 5, 5, 2]), 1);
    assert_eq!(pick_best(&vec![-7, -7, -7]), 0);
    assert_eq!(pick_best(&vec![-100, -50, -60]), 1);
    assert_eq!(pick_best(&vec![0, 1, 2, 3, 4, 5, 6]), 6);
}

#[test]
fn total_weight_shifts_the_scores() {
    assert_eq!(total_weight(&vec![]), 0);
    // -18 weighs 1, 0 weighs 19, 18 weighs 37
    assert_eq!(total_weight(&vec![-18]), 1);
    assert_eq!(total_weight(&vec![-18, 0, 18]), 57);
    // what lies below the lowest score weighs nothing
    assert_eq!(total_weight(&vec![-19, -20, -108]), 0);
    assert_eq!(total_weight(&vec![127; 7]), 7 * 146);
}

#[test]
fn pick_weighted_follows_the_draw() {
    let scores = vec![-18, 0, -19, 18];
    // the rooms are 0..1, 1..20, none, 20..57
    assert_eq!(pick_weighted(&scores, 0), 0);
    assert_eq!(pick_weighted(&scores, 1), 1);
    assert_eq!(pick_weighted(&scores, 19), 1);
    assert_eq!(pick_weighted(&scores, 20), 3);
    assert_eq!(pick_weighted(&scores, 56), 3);
}

#[test]
fn choose_move_by_strength() {
    let scores = vec![-18, 0, -19, 18];
    for ai in [AIType::Beginner, AIType::Hard, AIType::Impossible] {
        assert_eq!(choose_move(&scores, &ai, 0), 3);
        assert_eq!(choose_move(&scores, &ai, 19), 3);
    }
    for ai in [AIType::Easy, AIType::Medium] {
        assert_eq!(choose_move(&scores, &ai, 0), 0);
        assert_eq!(choose_move(&scores, &ai, 19), 1);
        assert_eq!(choose_move(&scores, &ai, 20), 3);
        // a draw beyond the weights falls on the first move
        assert_eq!(choose_move(&scores, &ai, 57), 0);
        assert_eq!(choose_move(&vec![-30, -40], &ai, 0), 0);
        assert_eq!(choose_move(&vec![], &ai, 0), 0);
    }
    assert_eq!(choose_move(&vec![], &AIType::Impossible, 0), 0);
}

#[test]
fn strengths_and_depths() {
    assert_eq!(search_depth(&AIType::Beginner), 0);
    assert_eq!(search_depth(&AIType::Easy), 4);
    assert_eq!(search_depth(&AIType::Medium), 10);
    assert_eq!(search_depth(&AIType::Hard), 17);
    assert_eq!(search_depth(&AIType::Impossible), 30);
    assert!(plays_best(&AIType::Beginner));
    assert!(!plays_best(&AIType::Easy));
    assert!(!plays_best(&AIType::Medium));
    assert!(plays_best(&AIType::Hard));
    assert!(plays_best(&AIType::Impossible));
}

#[test]
fn search_scores_one_for_each_board() {
    let mut engine = AlphaBeta::new();
    let board = played(&[3, 3]);
    let next = board.get_next_boards();
    assert!(engine.search_scores(&next, board.counter, 0).is_empty());
    let scores = engine.search_scores(&next, board.counter, 4);
    assert_eq!(scores, vec![0; 7]);
    // the first player threatens the bottom row on both sides: every reply
    // loses to the win that follows it
    let board = played(&[2, 2, 3, 3, 4]);
    let next = board.get_next_boards();
    let mut engine = AlphaBeta::new();
    assert_eq!(engine.search_scores(&next, board.counter, 3), vec![-18; 7]);
}

#[test]
fn an_immediate_win_is_taken_without_a_search() {
    for ai in [AIType::Easy, AIType::Medium, AIType::Hard, AIType::Impossible] {
        let mut engine = AlphaBeta::new();
        // three on the bottom row for the second player, to move
        let mut board = played(&[0, 2, 0, 3, 1, 4, 6]);
        let before = board;
        engine.make_move(&mut board, 30, &ai);
        assert_eq!(engine.nodes_explored(), 0);
        assert!(board.is_game_over(board.bit_board[1]));
        // columns 1 and 5 win: column 5 stands earlier in the order
        assert_eq!(column_of(&before, &board), 5);
        let mut board = before;
        engine.select_move(&mut board, &ai);
        assert_eq!(engine.nodes_explored(), 0);
        assert_eq!(column_of(&before, &board), 5);
    }
}

#[test]
fn a_lost_position_still_gets_a_move() {
    for ai in [AIType::Beginner, AIType::Easy, AIType::Medium, AIType::Hard, AIType::Impossible] {
        let mut engine = AlphaBeta::new();
        // the first player threatens the bottom row on both sides
        let mut board = played(&[2, 2, 3, 3, 4]);
        let before = board;
        engine.select_move(&mut board, &ai);
        let col = column_of(&before, &board);
        assert!(col < 7);
        assert_eq!(engine.nodes_explored(), 0);
        if ai == AIType::Hard || ai == AIType::Impossible {
            assert_eq!(col, 3);
        }
    }
}

#[test]
fn a_forced_block_is_made() {
    for ai in [AIType::Easy, AIType::Medium, AIType::Hard, AIType::Impossible] {
        let mut engine = AlphaBeta::new();
        // the first player has three on the bottom row, open on one side
        let mut board = played(&[0, 6, 1, 6, 2]);
        let before = board;
        engine.make_move(&mut board, 6, &ai);
        assert_eq!(column_of(&before, &board), 3);
        assert_eq!(engine.nodes_explored(), 0);
    }
}

#[test]
fn depth_nought_takes_the_first_candidate() {
    let mut engine = AlphaBeta::new();
    let mut board = Board::new();
    engine.make_move(&mut board, 0, &AIType::Impossible);
    assert_eq!(board.bit_board, [1 << 21, 0]);
    engine.make_move(&mut board, 0, &AIType::Easy);
    assert_eq!(board.bit_board, [1 << 21, 1 << 22]);
}

#[test]
fn the_best_move_is_found_in_the_endgame() {
    let cases: [(&[usize], usize); 2] = [
        (
            &[
                1, 5, 5, 0, 0, 6, 5, 5, 5, 2, 0, 6, 5, 2, 4, 2, 4, 6, 6, 0, 6, 1, 2, 3, 6, 2, 0, 2,
                3, 4, 0, 4, 1, 1,
            ],
            1,
        ),
        (
            &[
                3, 1, 1, 1, 1, 0, 2, 2, 0, 0, 4, 5, 0, 3, 0, 2, 5, 2, 4, 5, 3, 4, 5, 6, 6, 1, 4, 1,
                2, 5, 6, 3, 2, 3,
            ],
            5,
        ),
    ];
    for (moves, best) in cases.iter() {
        let mut engine = AlphaBeta::new();
        let mut board = played(moves);
        let before = board;
        engine.make_move(&mut board, 30, &AIType::Impossible);
        assert_eq!(column_of(&before, &board), *best);
        let mut board = before;
        engine.make_move(&mut board, 17, &AIType::Hard);
        assert_eq!(column_of(&before, &board), *best);
    }
}

#[test]
fn the_engine_does_not_walk_into_a_win_by_the_opponent() {
    // the opponent takes a win, else the square that stops one, else the
    // first legal column from the left
    fn opponent(board: &Board) -> usize {
        if let Some(won) = board.winning_board() {
            return column_of(board, &won);
        }
        let safe = board.get_next_non_losing_boards();
        if let Some(next) = safe[0] {
            let mut cols: Vec<usize> =
                safe.iter().flatten().map(|b| column_of(board, b)).collect();
            cols.sort();
            let _ = next;
            return cols[0];
        }
        column_of(board, &board.get_next_boards()[0])
    }
    let mut engine = AlphaBeta::new();
    let mut board = Board::new();
    loop {
        let col = opponent(&board);
        assert!(board.make_move(col));
        if board.is_game_over(board.bit_board[0]) {
            // the engine lost: only where it had no move that held
            break;
        }
        if board.is_draw() {
            break;
        }
        let before = board;
        let had_safe = before.get_next_non_losing_boards()[0].is_some();
        engine.make_move(&mut board, 6, &AIType::Impossible);
        let col = column_of(&before, &board);
        assert!(col < 7);
        assert_eq!(engine.nodes_explored(), 0);
        if board.is_game_over(board.bit_board[1]) || board.is_draw() {
            break;
        }
        if had_safe {
            assert_eq!(board.winning_moves(), 0);
        }
    }
    assert!(!board.is_game_over(board.bit_board[0]) || board.counter > 8);
}

#[test]
fn the_random_player_makes_a_legal_move() {
    for _ in 0..50 {
        let mut board = played(&[3, 3, 3, 3, 3, 3, 0]);
        let before = board;
        random::make_move(&mut board);
        let col = column_of(&before, &board);
        assert!(col != 3 && col < 7);
    }
    // one free column only
    let mut board = Board::new();
    for col in [0, 1, 2, 4, 5, 6] {
        for _ in 0..6 {
            board.make_move(col);
        }
    }
    let before = board;
    random::make_move(&mut board);
    assert_eq!(column_of(&before, &board), 3);
}

#[test]
fn the_random_player_reaches_every_move() {
    let mut seen = [false; 7];
    for _ in 0..400 {
        let mut board = Board::new();
        random::make_move(&mut board);
        seen[column_of(&Board::new(), &board)] = true;
    }
    assert!(seen.iter().all(|s| *s));
}

#[test]
fn the_nth_move_counts_from_the_middle() {
    let order = [3, 4, 2, 5, 1, 6, 0];
    for n in 0..7 {
        let mut board = Board::new();
        random::make_nth_move(&mut board, n);
        assert_eq!(column_of(&Board::new(), &board), order[n]);
    }
    let mut board = played(&[3, 3, 3, 3, 3, 3]);
    let before = board;
    random::make_nth_move(&mut board, 0);
    assert_eq!(column_of(&before, &board), 4);
}

#[test]
fn the_weaker_strengths_move_by_the_draw() {
    let mut seen = [false; 7];
    let mut engine = AlphaBeta::new();
    for _ in 0..30 {
        let mut board = Board::new();
        engine.make_move(&mut board, 4, &AIType::Easy);
        seen[column_of(&Board::new(), &board)] = true;
    }
    // every move scores nothing and weighs the same
    assert!(seen.iter().filter(|s| **s).count() >= 2);
}
