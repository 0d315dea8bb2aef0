use connect_four::board::Board;
use connect_four::cell::Cell;

fn print_board(b: &Board) {
    for (i, cell) in b.get_cells().iter().enumerate() {
        if i != 0 && i % 7 == 0 {
            println!();
        }
        match cell {
            Cell::Empty => println!("-"),
            Cell::White => println!("X"),
            Cell::Red => println!("O"),
        }
    }
    println!();
}

fn play(moves: &[usize]) -> Board {
    let mut b = Board::new();
    for &col in moves {
        assert!(b.make_move(col));
    }
    b
}

#[test]
fn test_horizontal() {
    let mut b = Board::new();
    b.make_move(0); assert!(b.winning_moves() == 0);
    b.make_move(0); assert!(b.winning_moves() == 0);
    b.make_move(1); assert!(b.winning_moves() == 0);
    b.make_move(1); assert!(b.winning_moves() == 0);
    b.make_move(2); assert!(b.winning_moves() == 0);
    b.make_move(2); assert!(b.winning_moves() != 0); // X can win
    b.make_move(4); assert!(b.winning_moves() == 0);
    b.make_move(3); assert!(b.winning_moves() == 0);
    b.make_move(5); assert!(b.winning_moves() != 0); // O can win

    b = Board::new();
    b.make_move(1); assert!(b.winning_moves() == 0);
    b.make_move(1); assert!(b.winning_moves() == 0);
    b.make_move(2); assert!(b.winning_moves() == 0);
    b.make_move(2); assert!(b.winning_moves() == 0);
    b.make_move(4); assert!(b.winning_moves() == 0);
    b.make_move(4); assert!(b.winning_moves() != 0);
}

#[test]
fn test_vertical() {
    let mut b = Board::new();
    b.make_move(0); assert!(b.winning_moves() == 0);
    b.make_move(1); assert!(b.winning_moves() == 0);
    b.make_move(0); assert!(b.winning_moves() == 0);
    b.make_move(1); assert!(b.winning_moves() == 0);
    b.make_move(0); print_board(&b); assert!(b.winning_moves() == 0);
    b.make_move(1); assert!(b.winning_moves() != 0);
    b.make_move(3); assert!(b.winning_moves() != 0);
}

#[test]
fn test_diagonal_down_right() {
    let mut b = Board::new();
    b.make_move(0); assert!(b.winning_moves() == 0);
    b.make_move(0); assert!(b.winning_moves() == 0);
    b.make_move(0); assert!(b.winning_moves() == 0);
    b.make_move(0); assert!(b.winning_moves() == 0);
    b.make_move(1); assert!(b.winning_moves() == 0);
    b.make_move(2); assert!(b.winning_moves() == 0);
    b.make_move(1); assert!(b.winning_moves() == 0);
    b.make_move(2); assert!(b.winning_moves() == 0);
    b.make_move(5); assert!(b.winning_moves() == 0);
    b.make_move(1); assert!(b.winning_moves() == 0);
    b.make_move(6); assert!(b.winning_moves() != 0);
    b.make_move(0); assert!(b.winning_moves() == 0);
    b.make_move(6); assert!(b.winning_moves() != 0);
    b.make_move(5); assert!(b.winning_moves() == 0);
    b.make_move(3); assert!(b.winning_moves() == 0);
}

#[test]
fn test_diagonal_down_left() {
    let mut b = Board::new();
    b.make_move(0); assert!(b.winning_moves() == 0);
    b.make_move(1); assert!(b.winning_moves() == 0);
    b.make_move(1); assert!(b.winning_moves() == 0);
    b.make_move(2); assert!(b.winning_moves() == 0);
    b.make_move(3); assert!(b.winning_moves() == 0);
    b.make_move(2); assert!(b.winning_moves() == 0);
    b.make_move(3); assert!(b.winning_moves() == 0);
    b.make_move(3); print_board(&b); assert!(b.winning_moves() == 0);
    b.make_move(2); print_board(&b); assert!(b.winning_moves() == 0);
    b.make_move(4); print_board(&b); assert!(b.winning_moves() != 0); // X can win
    b.make_move(4); print_board(&b); assert!(b.winning_moves() == 0);
    b.make_move(4); print_board(&b); assert!(b.winning_moves() != 0); // X can win
    b.make_move(0); print_board(&b); assert!(b.winning_moves() != 0); // O can win
    b.make_move(3); print_board(&b); assert!(b.winning_moves() == 0); // O blocked X
    b.make_move(4); print_board(&b); assert!(b.winning_moves() == 0); // X blocked O
}

#[test]
fn new_board_is_empty() {
    let b = Board::new();
    assert_eq!(b.bit_board, [0, 0]);
    assert_eq!(b.height, [0, 7, 14, 21, 28, 35, 42]);
    assert_eq!(b.counter, 0);
    assert!(b.is_white_turn());
    assert!(!b.is_draw());
    assert!(b.get_cells().iter().all(|c| *c == Cell::Empty));
}

#[test]
fn make_move_sets_the_lowest_free_bit() {
    let mut b = Board::new();
    assert!(b.make_move(3));
    assert_eq!(b.bit_board, [1 << 21, 0]);
    assert_eq!(b.height[3], 22);
    assert_eq!(b.counter, 1);
    assert!(!b.is_white_turn());
    assert!(b.make_move(3));
    assert_eq!(b.bit_board, [1 << 21, 1 << 22]);
    assert_eq!(b.height[3], 23);
    assert_eq!(b.counter, 2);
    assert!(b.is_white_turn());
}

#[test]
fn full_column_refuses_the_move() {
    let mut b = play(&[2, 2, 2, 2, 2, 2]);
    let before = b;
    assert!(!b.make_move(2));
    assert_eq!(b.bit_board, before.bit_board);
    assert_eq!(b.height, before.height);
    assert_eq!(b.counter, 6);
    assert!(b.make_move(1));
}

#[test]
fn undo_restores_the_position() {
    let moves = [3, 3, 4, 2, 2, 5, 0, 6, 6, 3, 1, 1];
    let mut b = Board::new();
    for &col in moves.iter() {
        let before = b;
        assert!(b.make_move(col));
        let after = b;
        b.undo_move(col);
        assert_eq!(b.bit_board, before.bit_board);
        assert_eq!(b.height, before.height);
        assert_eq!(b.counter, before.counter);
        assert!(b.make_move(col));
        assert_eq!(b.bit_board, after.bit_board);
        assert_eq!(b.height, after.height);
        assert_eq!(b.counter, after.counter);
    }
}

#[test]
fn counter_is_the_number_of_stones() {
    let moves = [3, 3, 4, 2, 2, 5, 0, 6, 6, 3, 1, 1, 0, 0, 0, 5, 5, 4];
    let mut b = Board::new();
    for (n, &col) in moves.iter().enumerate() {
        assert!(b.make_move(col));
        let stones = b.bit_board[0].count_ones() + b.bit_board[1].count_ones();
        assert_eq!(stones as usize, n + 1);
        assert_eq!(b.counter as usize, n + 1);
        assert_eq!(b.bit_board[0] & b.bit_board[1], 0);
    }
}

#[test]
fn four_in_a_row_is_found_in_every_direction() {
    let b = Board::new();
    // up a column
    assert!(b.is_game_over(0b1111));
    assert!(b.is_game_over(0b1111 << 23));
    // along a row
    assert!(b.is_game_over(1 | 1 << 7 | 1 << 14 | 1 << 21));
    assert!(b.is_game_over(1 << 26 | 1 << 33 | 1 << 40 | 1 << 47));
    // up a diagonal
    assert!(b.is_game_over(1 | 1 << 8 | 1 << 16 | 1 << 24));
    assert!(b.is_game_over(1 << 23 | 1 << 31 | 1 << 39 | 1 << 47));
    // down a diagonal
    assert!(b.is_game_over(1 << 3 | 1 << 9 | 1 << 15 | 1 << 21));
    assert!(b.is_game_over(1 << 26 | 1 << 32 | 1 << 38 | 1 << 44));
}

#[test]
fn three_in_a_row_is_no_win() {
    let b = Board::new();
    assert!(!b.is_game_over(0));
    assert!(!b.is_game_over(0b111));
    assert!(!b.is_game_over(1 | 1 << 7 | 1 << 14));
    assert!(!b.is_game_over(1 | 1 << 8 | 1 << 16));
    assert!(!b.is_game_over(1 << 3 | 1 << 9 | 1 << 15));
    // a gap in the line
    assert!(!b.is_game_over(0b11011));
    assert!(!b.is_game_over(1 | 1 << 7 | 1 << 21 | 1 << 28));
    // the top of one column and the bottom of the next do not join
    assert!(!b.is_game_over(1 << 4 | 1 << 5 | 1 << 7 | 1 << 8));
    // four set bits that stand on no line
    assert!(!b.is_game_over(1 | 1 << 2 | 1 << 9 | 1 << 30));
}

#[test]
fn played_four_is_found() {
    let b = play(&[0, 1, 0, 1, 0, 1, 0]);
    assert!(b.is_game_over(b.bit_board[0]));
    assert!(!b.is_game_over(b.bit_board[1]));
    let b = play(&[0, 0, 1, 1, 2, 2, 3]);
    assert!(b.is_game_over(b.bit_board[0]));
    let b = play(&[6, 0, 1, 1, 2, 3, 2, 2, 3, 3, 5, 3]);
    assert!(b.is_game_over(b.bit_board[1]));
    assert!(!b.is_game_over(b.bit_board[0]));
}

#[test]
fn draw_when_the_board_is_full() {
    let mut b = Board::new();
    let mut n = 0;
    for col in [0, 1, 2, 3, 4, 5, 6] {
        for _ in 0..6 {
            assert!(!b.is_draw());
            assert!(b.make_move(col));
            n += 1;
            assert_eq!(b.counter, n);
        }
    }
    assert!(b.is_draw());
    assert_eq!(b.possible(), 0);
    assert!(b.get_next_boards().is_empty());
    assert!(b.get_next_non_losing_boards().iter().all(|x| x.is_none()));
}

#[test]
fn hash_adds_the_movers_stones_to_all_stones() {
    let b = Board::new();
    assert_eq!(b.hash(), 0);
    let b = play(&[3]);
    // the second player is to move and has no stone
    assert_eq!(b.hash(), 1 << 21);
    let b = play(&[3, 3]);
    assert_eq!(b.hash(), (1 << 21) + (1 << 21 | 1 << 22));
    let b = play(&[3, 4, 3]);
    assert_eq!(b.hash(), (1u64 << 28) + (1 << 21 | 1 << 22 | 1 << 28));
}

#[test]
fn hash_tells_positions_apart() {
    let lines: [&[usize]; 8] = [
        &[], &[3], &[4], &[3, 4], &[4, 3], &[3, 3], &[3, 4, 3], &[3, 3, 4],
    ];
    for (i, a) in lines.iter().enumerate() {
        for (j, b) in lines.iter().enumerate() {
            let (x, y) = (play(a), play(b));
            let same = x.bit_board == y.bit_board;
            assert_eq!(x.hash() == y.hash(), same, "{} {}", i, j);
        }
    }
    // one position reached in two orders
    assert_eq!(play(&[3, 4, 2, 5]).hash(), play(&[2, 5, 3, 4]).hash());
}

#[test]
fn possible_marks_the_lowest_free_squares() {
    let b = Board::new();
    assert_eq!(b.possible(), 0x0000_0408_1020_4081);
    let b = play(&[0, 0, 6]);
    assert_eq!(b.possible(), 1 << 2 | 1 << 7 | 1 << 14 | 1 << 21 | 1 << 28 | 1 << 35 | 1 << 43);
    let b = play(&[2, 2, 2, 2, 2, 2]);
    assert_eq!(b.possible(), 1 | 1 << 7 | 1 << 21 | 1 << 28 | 1 << 35 | 1 << 42);
}

#[test]
fn winning_moves_names_the_squares() {
    // three on the bottom row, open on both sides
    let b = play(&[2, 2, 3, 3, 4, 4]);
    assert_eq!(b.winning_moves(), 1 << 7 | 1 << 35);
    // three up a column
    let b = play(&[0, 1, 0, 1, 0, 1]);
    assert_eq!(b.winning_moves(), 1 << 3);
    // the square is a winning one, but nothing stands under it yet
    let b = play(&[0, 0, 1, 1, 2, 6, 6, 2]);
    assert_eq!(b.winning_moves(), 1 << 21);
    let b = play(&[0, 1, 1, 2, 2, 6, 2, 6]);
    assert_eq!(b.winning_moves(), 0);
}

#[test]
fn compute_winning_positions_ignores_taken_squares() {
    let b = Board::new();
    let mine = 1 << 7 | 1 << 14 | 1 << 21;
    assert_eq!(b.compute_winning_positions(mine, 0), 1 | 1 << 28);
    assert_eq!(b.compute_winning_positions(mine, 1), 1 << 28);
    assert_eq!(b.compute_winning_positions(mine, 1 | 1 << 28), 0);
    assert_eq!(b.compute_winning_positions(0b111, 0), 0b1000);
    assert_eq!(b.compute_winning_positions(0, 0), 0);
}

#[test]
fn legal_columns_come_from_the_middle_out() {
    assert_eq!(Board::new().legal_columns(), vec![3, 4, 2, 5, 1, 6, 0]);
    let b = play(&[3, 3, 3, 3, 3, 3, 0, 0, 0, 0, 0, 0]);
    assert_eq!(b.legal_columns(), vec![4, 2, 5, 1, 6]);
}

#[test]
fn opponent_can_win_next_marks_the_moves_that_lose() {
    // the first player has three on the bottom row, open on one side
    let b = play(&[0, 6, 1, 6, 2]);
    assert_eq!(b.opponent_can_win_next(), [true, true, true, false, true, true, true]);
    assert_eq!(Board::new().opponent_can_win_next(), [false; 7]);
    // a full column is no move at all
    let b = play(&[6, 6, 6, 6, 6, 6, 0, 5, 1, 5, 2]);
    assert_eq!(b.opponent_can_win_next(), [true, true, true, false, true, true, false]);
}

#[test]
fn next_boards_come_from_the_middle_out() {
    let b = Board::new();
    let next = b.get_next_boards();
    assert_eq!(next.len(), 7);
    let order = [3, 4, 2, 5, 1, 6, 0];
    for (k, col) in order.iter().enumerate() {
        assert_eq!(next[k].bit_board, [1 << (7 * col), 0]);
        assert_eq!(next[k].counter, 1);
    }
    let b = play(&[3, 3, 3, 3, 3, 3]);
    let next = b.get_next_boards();
    assert_eq!(next.len(), 6);
    assert_eq!(next[0].height[4], 29);
    assert_eq!(next[5].height[0], 1);
}

#[test]
fn non_losing_boards_leave_no_winning_reply() {
    // the first player threatens the bottom row on both sides
    let b = play(&[2, 2, 3, 3, 4]);
    let safe = b.get_next_non_losing_boards();
    assert!(safe.iter().all(|x| x.is_none()));
    // one threat only: the second player must take the square
    let b = play(&[0, 6, 1, 6, 2]);
    let safe = b.get_next_non_losing_boards();
    assert!(safe[0].is_some());
    assert!(safe[1].is_none());
    assert_eq!(safe[0].unwrap().height[3], 22);
    for x in safe.iter().flatten() {
        assert_eq!(x.winning_moves(), 0);
    }
    // nothing threatens: every legal move is kept
    let b = play(&[3]);
    let safe = b.get_next_non_losing_boards();
    assert_eq!(safe.iter().flatten().count(), 7);
    let all = b.get_next_boards();
    for k in 0..7 {
        assert_eq!(safe[k].unwrap().bit_board, all[k].bit_board);
    }
}

#[test]
fn non_losing_boards_keep_a_winning_move() {
    // both players have three in a column: the mover wins in column 0, and
    // after that move the opponent's threat in column 1 still stands
    let b = play(&[0, 1, 0, 1, 0, 1]);
    let safe = b.get_next_non_losing_boards();
    let kept: Vec<Board> = safe.iter().flatten().copied().collect();
    // the win in column 0 and the block in column 1
    assert_eq!(kept.len(), 2);
    assert_eq!(kept[0].height, [3, 11, 14, 21, 28, 35, 42]);
    assert_eq!(kept[1].height, [4, 10, 14, 21, 28, 35, 42]);
    assert!(kept[1].is_game_over(kept[1].bit_board[0]));
}

#[test]
fn winning_board_takes_the_first_win_from_the_middle() {
    assert!(Board::new().winning_board().is_none());
    let b = play(&[2, 2, 3, 3, 4, 4]);
    // columns 1 and 5 win: column 5 stands earlier in the order
    let won = b.winning_board().unwrap();
    assert_eq!(won.height[5], 36);
    assert_eq!(won.height[1], 7);
    assert!(won.is_game_over(won.bit_board[0]));
}

#[test]
fn cells_are_listed_from_the_top_left() {
    let b = play(&[0, 6, 0]);
    let cells = b.get_cells();
    assert_eq!(cells.len(), 42);
    assert!(cells[35] == Cell::White);
    assert!(cells[41] == Cell::Red);
    assert!(cells[28] == Cell::White);
    let taken = cells.iter().filter(|c| **c != Cell::Empty).count();
    assert_eq!(taken, 3);
}

#[test]
fn reset_empties_the_board() {
    let mut b = play(&[3, 3, 4, 2]);
    b.reset();
    assert_eq!(b.bit_board, [0, 0]);
    assert_eq!(b.height, [0, 7, 14, 21, 28, 35, 42]);
    assert_eq!(b.counter, 0);
}
