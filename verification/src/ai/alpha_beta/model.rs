//! What the pruned search computes and what it owes: the score and the
//! table that a search returns, step by step, and how that score stands to
//! what the position is worth by full-width search.

use crate::ai::choice::chosen;
use crate::ai::alpha_beta::{LARGEST_SEARCH, MAX_SCORE};
use crate::ai::minimax::win_score;
use crate::board::{Board, MIN_SCORE};
use crate::transition_table::TransitionTable;
use crate::AIType;
use vstd::prelude::*;

verus! {

/// What a search with the window `alpha` to `beta` owes for a position worth
/// `value`: the value itself where the score falls inside the window, a
/// bound from above where it falls at or below `alpha`, and a bound from
/// below where it falls at or above `beta`.
pub open spec fn within(score: int, alpha: int, beta: int, value: int) -> bool {
    &&& score <= alpha ==> value <= score
    &&& score >= beta ==> value >= score
    &&& alpha < score < beta ==> value == score
}

/// The window from `alpha` to `beta` holds every score that `board` can be
/// worth: it prunes nothing at the root.
pub open spec fn full_window(board: Board, alpha: int, beta: int) -> bool {
    alpha <= -win_score(board.counter + 1) && win_score(board.counter as int) <= beta
}

/// With a window that holds every score the position can be worth, a search
/// that keeps to the window returns what the position is worth: the pruned
/// search and the full-width search agree.
pub proof fn lemma_full_window(board: Board, depth: nat, score: int, alpha: int, beta: int)
    requires
        board.wf(),
        within(score, alpha, beta, board.minimax(depth)),
        full_window(board, alpha, beta),
    ensures
        score == board.minimax(depth),
{
    board.lemma_minimax_bounds(depth);
}

/// The bound that `memo` holds for `board`, if it holds one, is true of a
/// search that ends `horizon` plies into the game.
pub open spec fn bound_holds(memo: Map<u64, i8>, board: Board, horizon: int) -> bool {
    board.wf() && memo.contains_key(board.fingerprint()) && board.counter <= horizon
        ==> board.minimax((horizon - board.counter) as nat) <= memo[board.fingerprint()]
        + MIN_SCORE - 1
}

/// Bounds that are true of one search that reaches the end of the game are
/// true of every such search.
pub proof fn lemma_sound_to_the_end(memo: Map<u64, i8>, horizon: int, other: int)
    requires
        horizon >= 42,
        other >= 42,
        forall|board: Board| #[trigger] bound_holds(memo, board, horizon),
    ensures
        forall|board: Board| #[trigger] bound_holds(memo, board, other),
{
    assert forall|board: Board| #[trigger] bound_holds(memo, board, other) by {
        if board.wf() && memo.contains_key(board.fingerprint()) {
            assert(bound_holds(memo, board, horizon));
            board.lemma_counter_in_range();
            board.lemma_search_to_the_end((horizon - board.counter) as nat);
            board.lemma_search_to_the_end((other - board.counter) as nat);
        }
    }
}

/// The most that the search takes `board` to be worth before it tries a
/// move: the bound that `memo` holds for it, or, where it holds none, a win
/// at the mover's next turn.
pub open spec fn upper_bound(board: Board, memo: Map<u64, i8>) -> int {
    if memo.contains_key(board.fingerprint()) {
        memo[board.fingerprint()] + MIN_SCORE - 1
    } else {
        win_score(board.counter + 2)
    }
}

/// The score that the pruned search returns for `board`, and the table it
/// leaves, when it starts with the table `memo`.
///
/// A full board and depth nought score nothing, and a win at once scores
/// as a win. Else `beta` comes down to the upper bound and is returned if
/// that closes the window. Else the candidates are scanned; a cut-off
/// returns its score, and a scan that ends returns the raised `alpha` and
/// writes it to the table as the new bound.
pub open spec fn searched(board: Board, depth: nat, alpha: int, beta: int, memo: Map<u64, i8>) -> (
    int,
    Map<u64, i8>,
)
    decreases depth, 1int, 0int,
{
    if board.counter >= 42 || depth == 0 {
        (0, memo)
    } else if board.can_win_next() {
        (win_score(board.counter as int), memo)
    } else {
        let bound = upper_bound(board, memo);
        let b = if beta > bound {
            bound
        } else {
            beta
        };
        if b <= alpha {
            (b, memo)
        } else {
            let (cut, score, after) = scanned(board, depth, 0, alpha, b, memo);
            if cut {
                (score, after)
            } else {
                (
                    score,
                    TransitionTable::written(
                        after,
                        board.fingerprint(),
                        (score - MIN_SCORE + 1) as i8,
                    ),
                )
            }
        }
    }
}

/// What the scan of the candidates from the `i`-th on comes to, with the
/// window from `a` to `b`: whether a move cut it off, the score of that move
/// or else the raised `a`, and the table it leaves. Every candidate is
/// searched one ply less deep with the window turned round, and its score
/// negated; a score of `b` or more cuts the scan off, and a score above `a`
/// raises it.
pub open spec fn scanned(board: Board, depth: nat, i: int, a: int, b: int, memo: Map<u64, i8>) -> (
    bool,
    int,
    Map<u64, i8>,
)
    decreases depth, 0int, board.candidate_moves().len() - i,
{
    let cols = board.candidate_moves();
    if i < 0 || i >= cols.len() || depth == 0 {
        (false, a, memo)
    } else {
        let (reply, after) = searched(
            board.after_move(cols[i]),
            (depth - 1) as nat,
            -b,
            -a,
            memo,
        );
        let score = -reply;
        if score >= b {
            (true, score, after)
        } else {
            scanned(
                board,
                depth,
                i + 1,
                if score > a {
                    score
                } else {
                    a
                },
                b,
                after,
            )
        }
    }
}

/// The scores of the first `k` of `boards` for the player who moved into
/// them, each searched `depth` plies deep with the table that the search
/// before it left, and the table that the last search leaves.
pub open spec fn scored(
    boards: Seq<Board>,
    k: int,
    depth: nat,
    alpha: int,
    beta: int,
    memo: Map<u64, i8>,
) -> (Seq<i8>, Map<u64, i8>)
    decreases k,
{
    if k <= 0 {
        (Seq::empty(), memo)
    } else {
        let (scores, held) = scored(boards, k - 1, depth, alpha, beta, memo);
        let (reply, after) = searched(boards[k - 1], depth, alpha, beta, held);
        (scores.push((-reply) as i8), after)
    }
}

/// The scores of `boards` after `rounds` rounds of searches, the first
/// `first` plies deep and each one ply deeper than the one before, and the
/// table that the last round leaves. Only the scores of the last round are
/// kept.
pub open spec fn deepened(
    boards: Seq<Board>,
    first: int,
    rounds: int,
    alpha: int,
    beta: int,
    memo: Map<u64, i8>,
) -> (Seq<i8>, Map<u64, i8>)
    decreases rounds,
{
    if rounds <= 0 {
        (Seq::empty(), memo)
    } else {
        let held = deepened(boards, first, rounds - 1, alpha, beta, memo).1;
        scored(boards, boards.len() as int, (first + rounds - 1) as nat, alpha, beta, held)
    }
}

/// The scores that a run of searches gives `boards`, and the table it
/// leaves: the depths go from a third of `max_depth` up to, and not
/// including, `max_depth`, and the window holds every score that a position
/// can have after `counter` moves and one more.
pub open spec fn search_result(
    boards: Seq<Board>,
    counter: int,
    max_depth: int,
    memo: Map<u64, i8>,
) -> (Seq<i8>, Map<u64, i8>) {
    deepened(
        boards,
        max_depth / 3,
        max_depth - max_depth / 3,
        -((42 - counter) / 2),
        (43 - counter) / 2,
        memo,
    )
}

/// The position that the engine moves to from `board`, where no move wins
/// at once, when it starts with the table `memo` and the draw is `draw`.
pub open spec fn decision(
    board: Board,
    max_depth: int,
    ai_type: AIType,
    memo: Map<u64, i8>,
    draw: int,
) -> Board {
    let cols = board.candidate_moves();
    let scores = search_result(board.positions_after(cols), board.counter as int, max_depth, memo).0;
    board.after_move(cols[chosen(scores, ai_type, draw)])
}

/// The `k`-th candidate is the first of those that are worth the most to
/// the player to move when both sides play their best to the end.
pub open spec fn is_best_candidate(board: Board, k: int) -> bool {
    let cols = board.candidate_moves();
    &&& 0 <= k < cols.len()
    &&& forall|j: int|
        0 <= j < cols.len() ==> -(#[trigger] board.after_move(cols[j])).worth() <= -board.after_move(
            cols[k],
        ).worth()
    &&& forall|j: int|
        0 <= j < k ==> -(#[trigger] board.after_move(cols[j])).worth() < -board.after_move(
            cols[k],
        ).worth()
}

/// The best candidate is as good a move as any: what the position after it
/// is worth to the opponent, negated, is what the position is worth to the
/// player to move. Leaving out the moves that lose at once costs nothing.
pub proof fn lemma_best_candidate(board: Board, k: int)
    requires
        board.wf(),
        board.counter < 42,
        !board.can_win_next(),
        is_best_candidate(board, k),
    ensures
        board.can_play(board.candidate_moves()[k]),
        -board.after_move(board.candidate_moves()[k]).worth() == board.worth(),
{
    let cols = board.candidate_moves();
    let depth = (42 - board.counter) as nat;
    let a = -board.after_move(cols[k]).worth();
    board.lemma_candidates(true);
    board.lemma_candidates(false);
    assert(board.keeps(cols[k], false));
    assert forall|j: int| 0 <= j < cols.len() implies #[trigger] board.reply_score(cols[j], depth)
        <= a by {
        assert(-board.after_move(cols[j]).worth() <= a);
    }
    assert(board.reply_score(cols[k], depth) == a);
    lemma_search_complete(board, depth, a, a - 1);
}

/// What the score that a child search returns says of the move that
/// leads to the child.
pub proof fn lemma_child_result(board: Board, depth: nat, col: int, r: int, a: int, b: int)
    requires
        depth > 0,
        within(r, -b, -a, board.after_move(col).minimax((depth - 1) as nat)),
    ensures
        -r >= b ==> board.reply_score(col, depth) >= -r,
        -r <= a ==> board.reply_score(col, depth) <= -r,
        a < -r < b ==> board.reply_score(col, depth) == -r,
{
}

/// A move that is worth at least the upper end of the window settles the
/// search.
pub proof fn lemma_cutoff(
    board: Board,
    depth: nat,
    col: int,
    s: int,
    alpha: int,
    beta: int,
    max: int,
)
    requires
        board.wf(),
        board.counter < 42,
        depth > 0,
        !board.can_win_next(),
        board.can_play(col),
        board.reply_score(col, depth) >= s,
        board.minimax(depth) <= max,
        alpha < beta,
        s > alpha,
        s >= beta || s >= max,
    ensures
        within(s, alpha, beta, board.minimax(depth)),
{
    board.lemma_best_reply(depth, 7);
    assert(board.reply_score(col, depth) <= board.best_reply(depth, 7)->0);
}

/// Writing a true bound for a position leaves every bound in the table
/// true.
pub proof fn lemma_store_sound(
    before: Map<u64, i8>,
    after: Map<u64, i8>,
    board: Board,
    horizon: int,
    a: i8,
)
    requires
        forall|other: Board| #[trigger] bound_holds(before, other, horizon),
        board.wf(),
        board.counter <= horizon,
        board.minimax((horizon - board.counter) as nat) <= a,
        a <= MAX_SCORE,
        after == TransitionTable::written(
            before,
            board.fingerprint(),
            (a - MIN_SCORE + 1) as i8,
        ),
    ensures
        forall|other: Board| #[trigger] bound_holds(after, other, horizon),
{
    assert forall|other: Board| #[trigger] bound_holds(after, other, horizon) by {
        if other.wf() && other.fingerprint() == board.fingerprint() {
            board.lemma_fingerprint_tells_position(other);
        } else {
            assert(bound_holds(before, other, horizon));
        }
    }
}

/// Once every candidate has been tried, the running bound is what the
/// position is worth at most, and exactly so where some move raised it.
pub proof fn lemma_search_complete(board: Board, depth: nat, a: int, alpha: int)
    requires
        board.wf(),
        board.counter < 42,
        depth > 0,
        !board.can_win_next(),
        alpha <= a,
        forall|j: int|
            0 <= j < board.candidate_moves().len() ==> #[trigger] board.reply_score(
                board.candidate_moves()[j],
                depth,
            ) <= a,
        a > alpha ==> exists|j: int|
            0 <= j < board.candidate_moves().len() && #[trigger] board.reply_score(
                board.candidate_moves()[j],
                depth,
            ) == a,
    ensures
        board.minimax(depth) <= a,
        a > alpha ==> board.minimax(depth) == a,
{
    let cols = board.candidate_moves();
    board.lemma_best_reply(depth, 7);
    board.lemma_room_to_move();
    board.lemma_candidates(true);
    board.lemma_candidates(false);
    let free = choose|col: int| board.can_play(col);
    assert(board.reply_score(free, depth) <= board.best_reply(depth, 7)->0);
    let best = choose|col: int|
        0 <= col < 7 && board.can_play(col) && #[trigger] board.reply_score(col, depth)
            == board.best_reply(depth, 7)->0;
    assert(board.keeps(best, false));
    assert(board.legal_moves().contains(best));
    if cols.contains(best) {
        let j = choose|j: int| 0 <= j < cols.len() && cols[j] == best;
        assert(board.reply_score(cols[j], depth) <= a);
    } else {
        assert(cols == board.safe_moves());
        assert(!board.keeps(best, true));
        let kept = cols[0];
        assert(board.keeps(kept, true));
        assert(board.reply_score(cols[0], depth) <= a);
        board.lemma_after_move_wf(best);
        board.lemma_after_move_wf(kept);
        let lost = board.after_move(best);
        if depth > 1 {
            let reply = choose|col: int| #[trigger] lost.wins_by(col);
            lost.lemma_counter_below_full(reply);
            board.after_move(kept).lemma_minimax_bounds((depth - 1) as nat);
            assert(lost.minimax((depth - 1) as nat) == win_score(lost.counter as int));
        }
        assert(board.reply_score(best, depth) <= board.reply_score(kept, depth));
    }
    if a > alpha {
        let j = choose|j: int|
            0 <= j < cols.len() && #[trigger] board.reply_score(cols[j], depth) == a;
        assert(board.keeps(cols[j], false));
        assert(board.reply_score(cols[j], depth) <= board.best_reply(depth, 7)->0);
    }
}

/// The most positions a search can visit that looks `plies` plies ahead.
pub open spec fn tree_size(plies: nat) -> nat
    decreases plies,
{
    if plies == 0 {
        1
    } else {
        1 + 7 * tree_size((plies - 1) as nat)
    }
}

/// How far a search of `depth` plies from `board` can go before the board is
/// full.
pub open spec fn plies_left(board: Board, depth: int) -> nat {
    if board.counter >= 42 || depth <= 0 {
        0
    } else if depth <= 42 - board.counter {
        depth as nat
    } else {
        (42 - board.counter) as nat
    }
}

/// A deeper search can visit more positions, and none visits so many that
/// the count of them could overflow.
pub proof fn lemma_tree_size(plies: nat, limit: nat)
    requires
        plies <= limit <= 42,
    ensures
        tree_size(plies) <= tree_size(limit),
        tree_size(41) == LARGEST_SEARCH,
        tree_size(42) == 363969062665299433184885375458972057,
    decreases limit,
{
    if plies < limit {
        lemma_tree_size(plies, (limit - 1) as nat);
    }
    lemma_tree_size_at(41);
    lemma_tree_size_at(42);
}

/// Seven to the power `n`.
pub open spec fn power_of_seven(n: nat) -> nat
    decreases n,
{
    if n == 0 {
        1
    } else {
        7 * power_of_seven((n - 1) as nat)
    }
}

proof fn lemma_tree_size_at(plies: nat)
    ensures
        6 * tree_size(plies) + 1 == power_of_seven(plies + 1),
        plies == 41 ==> tree_size(plies) == LARGEST_SEARCH,
        plies == 42 ==> tree_size(plies) == 363969062665299433184885375458972057,
    decreases plies,
{
    reveal_with_fuel(power_of_seven, 2);
    if plies > 0 {
        lemma_tree_size_at((plies - 1) as nat);
    }
    if plies >= 41 {
        lemma_power_of_seven();
    }
}

proof fn lemma_power_of_seven()
    ensures
        power_of_seven(42) == 311973482284542371301330321821976049,
        power_of_seven(43) == 2183814375991796599109312252753832343,
{
    reveal_with_fuel(power_of_seven, 8);
    assert(power_of_seven(7) == 823543);
    assert(power_of_seven(14) == 678223072849);
    assert(power_of_seven(21) == 558545864083284007);
    assert(power_of_seven(28) == 459986536544739960976801);
    assert(power_of_seven(35) == 378818692265664781682717625943);
    assert(power_of_seven(42) == 311973482284542371301330321821976049);
}

} // verus!
