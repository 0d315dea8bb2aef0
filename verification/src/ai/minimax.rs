//! What a position is worth to the player to move, by full-width search to a
//! given depth: the value that every faster search is held to.

use crate::board::Board;
use vstd::prelude::*;

verus! {

/// The score of a win found when `counter` moves have been played: the
/// sooner the win, the higher.
pub open spec fn win_score(counter: int) -> int {
    (43 - counter) / 2
}

impl Board {
    /// What the move into column `col` is worth to the player who makes it,
    /// looking `depth` plies ahead, the move itself being the first: what
    /// the position after it is worth to the opponent, negated.
    pub open spec fn reply_score(self, col: int, depth: nat) -> int
        decreases depth, 0int,
    {
        if depth > 0 {
            -self.after_move(col).minimax((depth - 1) as nat)
        } else {
            0
        }
    }

    /// What the best legal move into a column below `n` is worth, if there
    /// is a legal one.
    pub open spec fn best_reply(self, depth: nat, n: int) -> Option<int>
        decreases depth, 1int, n,
    {
        if n <= 0 {
            None
        } else {
            let rest = self.best_reply(depth, n - 1);
            if self.can_play(n - 1) {
                let score = self.reply_score(n - 1, depth);
                if rest is Some && rest->0 >= score {
                    rest
                } else {
                    Some(score)
                }
            } else {
                rest
            }
        }
    }

    /// What the position is worth to the player to move, looking `depth`
    /// plies ahead: nothing on a full board or at depth nought, the score of
    /// a win where one move wins, and else what the best legal move is
    /// worth.
    pub open spec fn minimax(self, depth: nat) -> int
        decreases depth, 2int,
    {
        if self.counter >= 42 || depth == 0 {
            0
        } else if self.can_win_next() {
            win_score(self.counter as int)
        } else {
            match self.best_reply(depth, 7) {
                Some(score) => score,
                None => 0,
            }
        }
    }

    /// What the position is worth to the player to move when both sides play
    /// their best to the end of the game.
    pub open spec fn worth(self) -> int {
        self.minimax((42 - self.counter) as nat)
    }

    /// A search that reaches the end of the game finds what the position is
    /// worth, however much deeper it is allowed to go.
    pub proof fn lemma_search_to_the_end(self, depth: nat)
        requires
            self.wf(),
            depth >= 42 - self.counter,
        ensures
            self.minimax(depth) == self.worth(),
        decreases depth,
    {
        let rest = (42 - self.counter) as nat;
        if self.counter < 42 && !self.can_win_next() {
            assert forall|col: int| self.can_play(col) implies self.reply_score(col, depth)
                == self.reply_score(col, rest) by {
                self.lemma_after_move_wf(col);
                self.after_move(col).lemma_search_to_the_end((depth - 1) as nat);
            }
            self.lemma_same_replies(depth, rest, 7);
        }
    }

    proof fn lemma_same_replies(self, depth: nat, other: nat, n: int)
        requires
            forall|col: int|
                self.can_play(col) ==> self.reply_score(col, depth) == self.reply_score(col, other),
        ensures
            self.best_reply(depth, n) == self.best_reply(other, n),
        decreases n,
    {
        if n > 0 {
            self.lemma_same_replies(depth, other, n - 1);
        }
    }

    /// The best reply is worth as much as every legal move and is the worth
    /// of one of them.
    pub proof fn lemma_best_reply(self, depth: nat, n: int)
        requires
            0 <= n <= 7,
        ensures
            forall|col: int|
                0 <= col < n && self.can_play(col) ==> self.best_reply(depth, n) is Some
                    && #[trigger] self.reply_score(col, depth) <= self.best_reply(depth, n)->0,
            self.best_reply(depth, n) is Some ==> exists|col: int|
                0 <= col < n && self.can_play(col) && #[trigger] self.reply_score(col, depth)
                    == self.best_reply(depth, n)->0,
        decreases n,
    {
        if n > 0 {
            self.lemma_best_reply(depth, n - 1);
            let rest = self.best_reply(depth, n - 1);
            if rest is Some {
                let col = choose|col: int|
                    0 <= col < n - 1 && self.can_play(col) && #[trigger] self.reply_score(
                        col,
                        depth,
                    ) == rest->0;
                assert(self.reply_score(col, depth) == rest->0);
            }
            if self.can_play(n - 1) {
                assert(self.reply_score(n - 1, depth) <= self.best_reply(depth, n)->0);
            }
        }
    }

    /// No position is worth more than a win at once, nor less than a loss
    /// at the opponent's next move; and where no move wins at once, none is
    /// worth more than a win at the mover's next turn.
    pub proof fn lemma_minimax_bounds(self, depth: nat)
        requires
            self.wf(),
        ensures
            -win_score(self.counter + 1) <= self.minimax(depth) <= win_score(self.counter as int),
            self.counter < 42 && !self.can_win_next() ==> self.minimax(depth) <= win_score(
                self.counter + 2,
            ),
        decreases depth,
    {
        if self.counter >= 42 || depth == 0 {
        } else if self.can_win_next() {
        } else {
            self.lemma_best_reply(depth, 7);
            self.lemma_room_to_move();
            let free = choose|col: int| self.can_play(col);
            assert(self.reply_score(free, depth) <= self.best_reply(depth, 7)->0);
            let best = choose|col: int|
                0 <= col < 7 && self.can_play(col) && #[trigger] self.reply_score(col, depth)
                    == self.best_reply(depth, 7)->0;
            self.lemma_after_move_wf(best);
            self.after_move(best).lemma_minimax_bounds((depth - 1) as nat);
        }
    }
}

/// What `board` is worth to the player to move, by trying every legal move
/// of both players `depth` plies deep.
pub fn minimax(board: &Board, depth: u8) -> (score: i8)
    requires
        board.wf(),
    ensures
        score == board.minimax(depth as nat),
    decreases depth,
{
    if board.is_draw() || depth == 0 {
        return 0;
    }
    if board.winning_moves() != 0 {
        return (43 - board.counter) / 2;
    }
    let mut best: Option<i8> = None;
    for col in 0..7usize
        invariant
            board.wf(),
            depth > 0,
            best is Some == board.best_reply(depth as nat, col as int) is Some,
            best is Some ==> best->0 == board.best_reply(depth as nat, col as int)->0,
    {
        let mut next = *board;
        if next.make_move(col) {
            proof {
                next.lemma_minimax_bounds((depth - 1) as nat);
            }
            let score = -minimax(&next, depth - 1);
            assert(score == board.reply_score(col as int, depth as nat));
            let keep = match best {
                Some(held) => held >= score,
                None => false,
            };
            if !keep {
                best = Some(score);
            }
        }
    }
    match best {
        Some(score) => score,
        None => 0,
    }
}

} // verus!
