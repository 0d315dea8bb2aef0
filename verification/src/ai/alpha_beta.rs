//! The engine: negamax with alpha-beta pruning over a transposition table,
//! a run of deepening searches, and the choice of a move on top of it.

use crate::ai::choice::{
    choose_move, lemma_chosen_in_range, lemma_first_best_among, first_best, plays_best,
    search_depth, depth_of, total_weight,
};
use crate::ai::minimax::win_score;
use crate::ai::random::random_index;
use crate::board::{Board, COLUMN_ORDER, I_HEIGHT, I_WIDTH, MIN_SCORE};
use crate::transition_table::TransitionTable;
use crate::AIType;
use model::{
    bound_holds, decision, deepened, full_window, is_best_candidate, lemma_child_result,
    lemma_cutoff, lemma_search_complete, lemma_sound_to_the_end, lemma_store_sound,
    lemma_tree_size, plies_left, scanned, scored, search_result, searched, tree_size,
    upper_bound, within,
};
use vstd::prelude::*;

pub mod model;

verus! {

/// The largest score, and the largest bound of a search window: what still
/// fits the table once it is biased.
pub const MAX_SCORE: i8 = 108;

/// The most positions that one search from a position with a stone on the
/// board can visit: seven to the power of every depth up to 41, added up.
pub const LARGEST_SEARCH: u128 = 51995580380757061883555053636996008;

/// The engine: the table of bounds that its searches share, and the count
/// of the positions they visited.
pub struct AlphaBeta {
    transposition_table: TransitionTable,
    nodes_explored: u128,
}

impl AlphaBeta {
    /// The table is whole, and unbiasing what it holds stays in range.
    pub closed spec fn wf(self) -> bool {
        &&& self.transposition_table.wf()
        &&& forall|key: u64| #[trigger]
            self.transposition_table@.contains_key(key) ==> self.transposition_table@[key]
                + MIN_SCORE - 1 >= -MAX_SCORE
    }

    /// The number of positions visited since the count was last cleared.
    pub closed spec fn nodes(self) -> nat {
        self.nodes_explored as nat
    }

    /// The bounds that the table holds, by fingerprint and still biased.
    pub closed spec fn memo(self) -> Map<u64, i8> {
        self.transposition_table@
    }

    /// Every bound in the table is true of a search that ends `horizon`
    /// plies into the game.
    pub open spec fn sound(self, horizon: int) -> bool {
        forall|board: Board| #[trigger] bound_holds(self.memo(), board, horizon)
    }

    /// An engine with an empty table.
    pub fn new() -> (engine: Self)
        ensures
            engine.wf(),
            engine.nodes() == 0,
            engine.memo() == Map::<u64, i8>::empty(),
    {
        AlphaBeta { transposition_table: TransitionTable::new(), nodes_explored: 0 }
    }

    /// Clears the table and the count of positions, as between two moves.
    pub fn reset(&mut self)
        requires
            old(self).wf(),
        ensures
            final(self).wf(),
            final(self).nodes() == 0,
            final(self).memo() == Map::<u64, i8>::empty(),
    {
        self.transposition_table.reset();
        self.nodes_explored = 0;
    }

    /// The number of positions visited since the count was last cleared.
    pub fn nodes_explored(&self) -> (count: u128)
        ensures
            count == self.nodes(),
    {
        self.nodes_explored
    }

    /// The positions after the moves that a search tries from `board`.
    pub fn candidates(board: &Board) -> (boards: Vec<Board>)
        requires
            board.wf(),
        ensures
            boards@ == board.positions_after(board.candidate_moves()),
    {
        let safe = board.get_next_non_losing_boards();
        if safe[0].is_some() {
            let mut boards: Vec<Board> = Vec::new();
            let mut i: usize = 0;
            while i < 7 && safe[i].is_some()
                invariant
                    i <= 7,
                    i <= board.safe_moves().len(),
                    forall|k: int|
                        0 <= k < 7 ==> #[trigger] safe@[k] == (if k < board.safe_moves().len() {
                            Some(board.after_move(board.safe_moves()[k]))
                        } else {
                            None
                        }),
                    boards@ == board.positions_after(board.safe_moves().take(i as int)),
                decreases 7 - i,
            {
                boards.push(safe[i].unwrap());
                i += 1;
                assert(boards@ =~= board.positions_after(board.safe_moves().take(i as int)));
            }
            proof {
                board.lemma_candidates(true);
                assert(board.safe_moves().take(i as int) =~= board.safe_moves());
            }
            boards
        } else {
            board.get_next_boards()
        }
    }

    /// The score of `board` for the player to move, searched `depth` plies
    /// deep inside the window from `alpha` to `beta`.
    ///
    /// The score and the table that the search leaves are those of
    /// `searched`. Where every bound in the table is true of a search to this
    /// horizon, as in an empty table, the bounds it leaves are true as well
    /// and the score keeps to the window: it is what the position is worth
    /// by full-width search where it falls inside the window, and a bound on
    /// that worth where it falls outside. With a full window it is the
    /// worth itself.
    pub fn negamax(&mut self, board: &Board, depth: u8, alpha: i8, beta: i8) -> (score: i8)
        requires
            old(self).wf(),
            board.wf(),
            -MAX_SCORE <= alpha < beta <= MAX_SCORE,
            old(self).nodes() + tree_size(plies_left(*board, depth as int)) <= u128::MAX,
        ensures
            final(self).wf(),
            -MAX_SCORE <= score <= MAX_SCORE,
            old(self).nodes() < final(self).nodes() <= old(self).nodes() + tree_size(
                plies_left(*board, depth as int),
            ),
            old(self).sound(board.counter + depth) ==> final(self).sound(board.counter + depth)
                && within(score as int, alpha as int, beta as int, board.minimax(depth as nat)),
            old(self).sound(board.counter + depth) && full_window(*board, alpha as int, beta as int)
                ==> score == board.minimax(depth as nat),
            (score as int, final(self).memo()) == searched(
                *board,
                depth as nat,
                alpha as int,
                beta as int,
                old(self).memo(),
            ),
        decreases depth,
    {
        let ghost horizon = board.counter + depth;
        proof {
            board.lemma_minimax_bounds(depth as nat);
        }
        let ghost sound0 = old(self).sound(horizon);
        let ghost value = board.minimax(depth as nat);
        let ghost plies = plies_left(*board, depth as int);
        self.nodes_explored = self.nodes_explored + 1;
        assert(self.memo() == old(self).memo());

        if board.is_draw() || depth == 0 {
            return 0;
        }
        if board.winning_moves() != 0 {
            return (I_WIDTH * I_HEIGHT + 1 - board.counter) / 2;
        }
        let key = board.hash();
        let max: i8 = match self.transposition_table.get(key) {
            Some(val) => val + MIN_SCORE - 1,
            None => (I_WIDTH * I_HEIGHT - 1 - board.counter) / 2,
        };
        proof {
            board.lemma_minimax_bounds(depth as nat);
            if sound0 {
                assert(bound_holds(self.memo(), *board, horizon));
            }
        }
        assert(sound0 ==> value <= max);
        let b = if beta > max {
            max
        } else {
            beta
        };
        if b <= alpha {
            return b;
        }
        let boards = Self::candidates(board);
        let ghost cols = board.candidate_moves();
        let ghost sub = tree_size((plies - 1) as nat);
        let ghost goal = scanned(*board, depth as nat, 0, alpha as int, b as int, self.memo());
        let ghost target = searched(
            *board,
            depth as nat,
            alpha as int,
            beta as int,
            old(self).memo(),
        );
        assert(max == upper_bound(*board, old(self).memo()));
        assert(target == if goal.0 {
            (goal.1, goal.2)
        } else {
            (
                goal.1,
                TransitionTable::written(
                    goal.2,
                    board.fingerprint(),
                    (goal.1 - MIN_SCORE + 1) as i8,
                ),
            )
        });
        proof {
            board.lemma_candidates(true);
            board.lemma_candidates(false);
            assert forall|k: int| 0 <= k < cols.len() implies board.can_play(#[trigger] cols[k]) by {
                assert(board.keeps(cols[k], false));
            }
        }
        let mut a = alpha;
        let mut i: usize = 0;
        while i < boards.len()
            invariant
                self.wf(),
                board.wf(),
                depth > 0,
                board.counter < 42,
                !board.can_win_next(),
                horizon == board.counter + depth,
                sound0 == old(self).sound(horizon),
                value == board.minimax(depth as nat),
                -win_score(board.counter + 1) <= value <= win_score(board.counter as int),
                boards@ == board.positions_after(cols),
                forall|k: int| 0 <= k < cols.len() ==> board.can_play(#[trigger] cols[k]),
                0 <= i <= boards.len() <= 7,
                -MAX_SCORE <= alpha <= a < b <= beta <= MAX_SCORE,
                b == max || (b == beta && beta <= max),
                sound0 ==> value <= max,
                plies == plies_left(*board, depth as int),
                plies >= 1,
                sub == tree_size((plies - 1) as nat),
                old(self).nodes() + 1 + 7 * sub <= u128::MAX,
                old(self).nodes() < self.nodes() <= old(self).nodes() + 1 + i * sub,
                sound0 ==> self.sound(horizon),
                cols == board.candidate_moves(),
                goal == scanned(*board, depth as nat, i as int, a as int, b as int, self.memo()),
                target == searched(
                    *board,
                    depth as nat,
                    alpha as int,
                    beta as int,
                    old(self).memo(),
                ),
                goal.0 ==> target == (goal.1, goal.2),
                sound0 ==> forall|j: int|
                    0 <= j < i ==> #[trigger] board.reply_score(cols[j], depth as nat) <= a,
                sound0 && a > alpha ==> exists|j: int|
                    0 <= j < i && #[trigger] board.reply_score(cols[j], depth as nat) == a,
            decreases boards.len() - i,
        {
            let ghost col = cols[i as int];
            let ghost before = *self;
            proof {
                board.lemma_after_move_wf(col);
                assert(boards@[i as int] == board.after_move(col));
                assert((i + 1) * sub <= 7 * sub) by (nonlinear_arith)
                    requires
                        i + 1 <= 7,
                        sub >= 0,
                ;
                assert((i + 1) * sub == i * sub + sub) by (nonlinear_arith);
                assert(plies_left(boards@[i as int], depth - 1) == plies - 1);
            }
            let r = self.negamax(&boards[i], depth - 1, -b, -a);
            let s = -r;
            proof {
                assert((r as int, self.memo()) == searched(
                    board.after_move(col),
                    (depth - 1) as nat,
                    -b as int,
                    -a as int,
                    before.memo(),
                ));
                if sound0 {
                    assert(before.sound(horizon));
                    lemma_child_result(
                        *board,
                        depth as nat,
                        col,
                        r as int,
                        a as int,
                        b as int,
                    );
                }
            }
            if s >= b {
                proof {
                    if sound0 {
                        lemma_cutoff(
                            *board,
                            depth as nat,
                            col,
                            s as int,
                            alpha as int,
                            beta as int,
                            max as int,
                        );
                    }
                }
                return s;
            }
            if s > a {
                a = s;
            }
            i += 1;
        }
        let ghost held = self.memo();
        proof {
            assert(i * sub <= 7 * sub) by (nonlinear_arith)
                requires
                    i <= 7,
                    sub >= 0,
            ;
            if sound0 {
                lemma_search_complete(*board, depth as nat, a as int, alpha as int);
            }
        }
        self.transposition_table.set(key, a - MIN_SCORE + 1);
        proof {
            if sound0 {
                lemma_store_sound(held, self.memo(), *board, horizon, a);
            }
        }
        a
    }

    /// The scores of `boards` for the player who moved into them, from the
    /// deepest of a run of searches: the depths go from a third of
    /// `max_depth` up to, and not including, `max_depth`, and every search
    /// leaves its bounds in the table for the next. `counter` is the number
    /// of moves played before the moves into `boards`. The count of
    /// positions starts anew.
    ///
    /// The bounds of a shallower search are not true of a deeper one, so the
    /// scores are those of `search_result` and no more; but where the first
    /// search already reaches the end of the game, and every bound in the
    /// table is true of such a search, each score is what the move is
    /// worth.
    pub fn search_scores(&mut self, boards: &Vec<Board>, counter: i8, max_depth: u8) -> (scores:
        Vec<i8>)
        requires
            old(self).wf(),
            0 <= counter < 42,
            boards.len() <= 7,
            forall|k: int|
                0 <= k < boards.len() ==> (#[trigger] boards[k]).wf() && boards[k].counter
                    == counter + 1,
        ensures
            final(self).wf(),
            scores.len() == if max_depth > 0 {
                boards.len()
            } else {
                0
            },
            forall|k: int| 0 <= k < scores.len() ==> -MAX_SCORE <= #[trigger] scores[k] <= MAX_SCORE,
            final(self).nodes() <= 7 * (max_depth - max_depth / 3) * LARGEST_SEARCH,
            old(self).sound(42) && max_depth > 0 && counter + 1 + max_depth / 3 >= 42
                ==> final(self).sound(42) && forall|k: int|
                0 <= k < scores.len() ==> #[trigger] scores[k] == -boards[k].worth(),
            (scores@, final(self).memo()) == search_result(
                boards@,
                counter as int,
                max_depth as int,
                old(self).memo(),
            ),
    {
        let ghost memo0 = old(self).memo();
        let ghost to_end = old(self).sound(42) && max_depth > 0 && counter + 1 + max_depth / 3
            >= 42;
        let mut scores: Vec<i8> = Vec::new();
        let min = -(I_WIDTH * I_HEIGHT - counter) / 2;
        let max = (I_WIDTH * I_HEIGHT + 1 - counter) / 2;
        self.nodes_explored = 0;
        assert(self.memo() == old(self).memo());
        let ghost mut searches: nat = 0;
        let first = max_depth / 3;
        for depth in iter: first..max_depth
            invariant
                self.wf(),
                first == max_depth / 3,
                0 <= counter < 42,
                min == -((42 - counter) / 2),
                max == (43 - counter) / 2,
                boards.len() <= 7,
                forall|k: int|
                    0 <= k < boards.len() ==> (#[trigger] boards[k]).wf() && boards[k].counter
                        == counter + 1,
                searches == 7 * (depth - first),
                self.nodes() <= searches * LARGEST_SEARCH,
                scores.len() == if depth > first {
                    boards.len()
                } else {
                    0
                },
                forall|k: int|
                    0 <= k < scores.len() ==> -MAX_SCORE <= #[trigger] scores[k] <= MAX_SCORE,
                to_end ==> counter + 1 + first >= 42,
                to_end ==> self.sound(42),
                to_end ==> forall|k: int|
                    0 <= k < scores.len() ==> #[trigger] scores[k] == -boards[k].worth(),
                (scores@, self.memo()) == deepened(
                    boards@,
                    first as int,
                    depth - first,
                    min as int,
                    max as int,
                    memo0,
                ),
        {
            scores.clear();
            let ghost done = searches;
            let ghost round = self.memo();
            let mut k: usize = 0;
            while k < boards.len()
                invariant
                    self.wf(),
                    0 <= counter < 42,
                    min == -((42 - counter) / 2),
                    max == (43 - counter) / 2,
                    first <= depth < max_depth,
                    k <= boards.len() <= 7,
                    forall|k: int|
                        0 <= k < boards.len() ==> (#[trigger] boards[k]).wf() && boards[k].counter
                            == counter + 1,
                    done == 7 * (depth - first),
                    searches == done + k,
                    self.nodes() <= searches * LARGEST_SEARCH,
                    scores.len() == k,
                    forall|k: int|
                        0 <= k < scores.len() ==> -MAX_SCORE <= #[trigger] scores[k] <= MAX_SCORE,
                    to_end ==> counter + 1 + first >= 42,
                    to_end ==> self.sound(42),
                    to_end ==> forall|k: int|
                        0 <= k < scores.len() ==> #[trigger] scores[k] == -boards[k].worth(),
                    (scores@, self.memo()) == scored(
                        boards@,
                        k as int,
                        depth as nat,
                        min as int,
                        max as int,
                        round,
                    ),
                decreases boards.len() - k,
            {
                let ghost horizon = counter + 1 + depth;
                proof {
                    lemma_tree_size(plies_left(boards[k as int], depth as int), 41);
                    if to_end {
                        lemma_sound_to_the_end(self.memo(), 42, horizon);
                        boards[k as int].lemma_search_to_the_end(depth as nat);
                    }
                }
                let score = -self.negamax(&boards[k], depth, min, max);
                proof {
                    if to_end {
                        lemma_sound_to_the_end(self.memo(), horizon, 42);
                    }
                }
                scores.push(score);
                k += 1;
                proof {
                    searches = searches + 1;
                }
            }
            proof {
                searches = done + 7;
            }
        }
        scores
    }

    /// Moves for the player to move on `board`. A move that wins at once is
    /// made without a search, the first such from the middle out. Otherwise
    /// the moves that do not lose at once are searched, or all legal moves
    /// where every one loses, and one of them is made: the first of the best
    /// at the higher strengths, one drawn by weight at the lower. After a
    /// search the table and the count of positions are cleared.
    pub fn make_move(&mut self, board: &mut Board, max_depth: u8, ai_type: &AIType)
        requires
            old(self).wf(),
            old(board).wf(),
            old(board).counter < 42,
        ensures
            final(self).wf(),
            final(board).wf(),
            exists|col: int| old(board).can_play(col) && *final(board) == old(board).after_move(col),
            old(board).can_win_next() ==> *final(self) == *old(self) && exists|k: int|
                old(board).is_first_win(k) && *final(board) == old(board).after_move(
                    #[trigger] COLUMN_ORDER@[k] as int,
                ),
            !old(board).can_win_next() ==> final(self).nodes() == 0 && final(self).memo()
                == Map::<u64, i8>::empty() && exists|k: int|
                0 <= k < old(board).candidate_moves().len() && *final(board) == old(
                    board,
                ).after_move(#[trigger] old(board).candidate_moves()[k]),
            !old(board).can_win_next() && (max_depth == 0 || old(board).candidate_moves().len() == 1)
                ==> *final(board) == old(board).after_move(old(board).candidate_moves()[0]),
            !old(board).can_win_next() ==> exists|draw: int|
                0 <= draw && *final(board) == #[trigger] decision(
                    *old(board),
                    max_depth as int,
                    *ai_type,
                    old(self).memo(),
                    draw,
                ),
            !old(board).can_win_next() && !(*ai_type == AIType::Easy || *ai_type == AIType::Medium)
                ==> *final(board) == decision(
                *old(board),
                max_depth as int,
                *ai_type,
                old(self).memo(),
                0,
            ),
            !old(board).can_win_next() && old(self).sound(42) && !(*ai_type == AIType::Easy
                || *ai_type == AIType::Medium) && max_depth > 0 && old(board).counter + 1
                + max_depth / 3 >= 42 ==> exists|k: int|
                is_best_candidate(*old(board), k) && *final(board) == old(board).after_move(
                    #[trigger] old(board).candidate_moves()[k],
                ),
    {
        proof {
            board.lemma_room_to_move();
            board.lemma_candidates(true);
            board.lemma_candidates(false);
        }
        match board.winning_board() {
            Some(won) => {
                proof {
                    let k = choose|k: int|
                        board.is_first_win(k) && won == board.after_move(
                            #[trigger] COLUMN_ORDER@[k] as int,
                        );
                    board.lemma_after_move_wf(COLUMN_ORDER@[k] as int);
                }
                *board = won;
            },
            None => {
                let boards = Self::candidates(board);
                let ghost cols = board.candidate_moves();
                proof {
                    assert(cols.len() > 0);
                    assert forall|k: int| 0 <= k < boards.len() implies (#[trigger] boards[k]).wf()
                        && boards[k].counter == board.counter + 1 by {
                        assert(board.keeps(cols[k], false));
                        board.lemma_after_move_wf(cols[k]);
                    }
                }
                let scores = self.search_scores(&boards, board.counter, max_depth);
                let mut draw: usize = 0;
                if !plays_best(ai_type) && scores.len() > 0 {
                    let total = total_weight(&scores);
                    if total > 0 {
                        draw = random_index(total);
                    }
                }
                let index = choose_move(&scores, ai_type, draw);
                proof {
                    assert(*board == *old(board));
                    assert(board.after_move(cols[index as int]) == decision(
                        *board,
                        max_depth as int,
                        *ai_type,
                        old(self).memo(),
                        draw as int,
                    ));
                    lemma_chosen_in_range(scores@, *ai_type, draw as int);
                    assert(board.keeps(cols[index as int], false));
                    if old(self).sound(42) && !(*ai_type == AIType::Easy || *ai_type
                        == AIType::Medium) && max_depth > 0 && board.counter + 1 + max_depth / 3
                        >= 42 {
                        lemma_first_best_among(scores@, scores.len() as int);
                        let best = index as int;
                        assert(best == first_best(scores@, scores.len() as int));
                        assert(scores[best] == -boards[best].worth());
                        assert forall|j: int| 0 <= j < cols.len() implies -(
                        #[trigger] board.after_move(cols[j])).worth() <= -board.after_move(
                            cols[best],
                        ).worth() by {
                            assert(scores[j] == -boards[j].worth());
                            assert(scores@[j] <= scores@[best]);
                        }
                        assert forall|j: int| 0 <= j < best implies -(#[trigger] board.after_move(
                            cols[j],
                        )).worth() < -board.after_move(cols[best]).worth() by {
                            assert(scores[j] == -boards[j].worth());
                            assert(scores@[j] < scores@[best]);
                        }
                        assert(is_best_candidate(*board, best));
                    }
                }
                self.reset();
                *board = boards[index];
            },
        }
    }

    /// Moves for the player to move on `board` at strength `ai_type`: at
    /// random at the lowest strength, and else as `make_move` does with a
    /// search as deep as the strength asks for.
    pub fn select_move(&mut self, board: &mut Board, ai_type: &AIType)
        requires
            old(self).wf(),
            old(board).wf(),
            old(board).counter < 42,
        ensures
            final(self).wf(),
            final(board).wf(),
            exists|col: int| old(board).can_play(col) && *final(board) == old(board).after_move(col),
            *ai_type == AIType::Beginner || old(board).can_win_next() ==> *final(self) == *old(self),
            *ai_type != AIType::Beginner && old(board).can_win_next() ==> exists|k: int|
                old(board).is_first_win(k) && *final(board) == old(board).after_move(
                    #[trigger] COLUMN_ORDER@[k] as int,
                ),
            *ai_type != AIType::Beginner && !old(board).can_win_next() ==> final(self).nodes() == 0
                && final(self).memo() == Map::<u64, i8>::empty() && exists|draw: int|
                0 <= draw && *final(board) == #[trigger] decision(
                    *old(board),
                    depth_of(*ai_type),
                    *ai_type,
                    old(self).memo(),
                    draw,
                ),
            (*ai_type == AIType::Hard || *ai_type == AIType::Impossible) && !old(
                board,
            ).can_win_next() ==> *final(board) == decision(
                *old(board),
                depth_of(*ai_type),
                *ai_type,
                old(self).memo(),
                0,
            ),
            (*ai_type == AIType::Hard || *ai_type == AIType::Impossible) && !old(
                board,
            ).can_win_next() && old(self).sound(42) && old(board).counter + 1 + depth_of(*ai_type)
                / 3 >= 42 ==> exists|k: int|
                is_best_candidate(*old(board), k) && *final(board) == old(board).after_move(
                    #[trigger] old(board).candidate_moves()[k],
                ),
    {
        match ai_type {
            AIType::Beginner => crate::ai::random::make_move(board),
            _ => {
                let depth = search_depth(ai_type);
                self.make_move(board, depth, ai_type)
            },
        }
    }
}

} // verus!
