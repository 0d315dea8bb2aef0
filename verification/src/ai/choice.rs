//! Which of the moves that were scored is made: the first of the best at the
//! higher strengths, and at the lower ones a move drawn by weight, so that a
//! better move is the likelier but no move is safe from being made.

use crate::board::MIN_SCORE;
use crate::AIType;
use vstd::prelude::*;

verus! {

/// How deep the engine searches at each strength.
pub open spec fn depth_of(ai_type: AIType) -> int {
    match ai_type {
        AIType::Beginner => 0,
        AIType::Easy => 4,
        AIType::Medium => 10,
        AIType::Hard => 17,
        AIType::Impossible => 30,
    }
}

/// The room that a move with score `score` takes up when a move is drawn:
/// the score less the lowest score, and one more, and never less than
/// nothing.
pub open spec fn weight(score: i8) -> nat {
    if score - MIN_SCORE + 1 > 0 {
        (score - MIN_SCORE + 1) as nat
    } else {
        0
    }
}

/// The sum of the weights of the first `n` of `scores`.
pub open spec fn weight_below(scores: Seq<i8>, n: int) -> nat
    decreases n,
{
    if n <= 0 {
        0
    } else {
        weight_below(scores, n - 1) + weight(scores[n - 1])
    }
}

/// The first of the highest among the first `n` of `scores`.
pub open spec fn first_best(scores: Seq<i8>, n: int) -> int
    decreases n,
{
    if n <= 1 {
        0
    } else {
        let held = first_best(scores, n - 1);
        if scores[n - 1] > scores[held] {
            n - 1
        } else {
            held
        }
    }
}

/// The first of the first `n` moves whose weight, added to those before it,
/// exceeds `draw`; `n` if there is none.
pub open spec fn drawn(scores: Seq<i8>, draw: int, n: int) -> int
    decreases n,
{
    if n <= 0 {
        0
    } else {
        let before = drawn(scores, draw, n - 1);
        if before < n - 1 || weight_below(scores, n) > draw {
            before
        } else {
            n
        }
    }
}

/// Which of the moves with `scores` is made at strength `ai_type` when the
/// draw is `draw`.
pub open spec fn chosen(scores: Seq<i8>, ai_type: AIType, draw: int) -> int {
    if scores.len() == 0 {
        0
    } else if !(ai_type == AIType::Easy || ai_type == AIType::Medium) {
        first_best(scores, scores.len() as int)
    } else if draw < weight_below(scores, scores.len() as int) {
        drawn(scores, draw, scores.len() as int)
    } else {
        0
    }
}

/// How deep the engine searches at each strength.
pub fn search_depth(ai_type: &AIType) -> (depth: u8)
    ensures
        depth == depth_of(*ai_type),
{
    match ai_type {
        AIType::Beginner => 0,
        AIType::Easy => 4,
        AIType::Medium => 10,
        AIType::Hard => 17,
        AIType::Impossible => 30,
    }
}

/// Whether the engine plays the best move it found at this strength,
/// rather than drawing one by weight.
pub fn plays_best(ai_type: &AIType) -> (best: bool)
    ensures
        best == !(*ai_type == AIType::Easy || *ai_type == AIType::Medium),
{
    match ai_type {
        AIType::Easy => false,
        AIType::Medium => false,
        _ => true,
    }
}

/// The sum of the weights of `scores`.
pub fn total_weight(scores: &Vec<i8>) -> (total: usize)
    requires
        scores.len() <= 7,
    ensures
        total == weight_below(scores@, scores.len() as int),
        total <= 7 * 146,
{
    let mut total: usize = 0;
    for k in 0..scores.len()
        invariant
            scores.len() <= 7,
            total == weight_below(scores@, k as int),
            total <= k * 146,
    {
        if scores[k] > MIN_SCORE - 1 {
            total = total + (scores[k] as i16 - MIN_SCORE as i16 + 1) as usize;
        }
    }
    total
}

/// The move that the draw falls on, where every move takes up as much
/// room as its weight: the first whose weight, added to the weights
/// before it, exceeds `draw`.
pub fn pick_weighted(scores: &Vec<i8>, draw: usize) -> (index: usize)
    requires
        scores.len() <= 7,
        draw < weight_below(scores@, scores.len() as int),
    ensures
        index < scores.len(),
        weight_below(scores@, index as int) <= draw < weight_below(scores@, index + 1),
{
    let mut sum: usize = 0;
    let mut k: usize = 0;
    while k < scores.len()
        invariant
            k <= scores.len() <= 7,
            sum == weight_below(scores@, k as int),
            sum <= k * 146,
            sum <= draw,
            draw < weight_below(scores@, scores.len() as int),
        decreases scores.len() - k,
    {
        let mut next = sum;
        if scores[k] > MIN_SCORE - 1 {
            next = sum + (scores[k] as i16 - MIN_SCORE as i16 + 1) as usize;
        }
        if next > draw {
            return k;
        }
        sum = next;
        k += 1;
    }
    proof {
        assert(false);
    }
    0
}

/// The first of the highest scores.
pub fn pick_best(scores: &Vec<i8>) -> (index: usize)
    requires
        scores.len() > 0,
    ensures
        index < scores.len(),
        forall|k: int| 0 <= k < scores.len() ==> #[trigger] scores[k] <= scores[index as int],
        forall|k: int| 0 <= k < index ==> #[trigger] scores[k] < scores[index as int],
{
    let mut index: usize = 0;
    for k in 1..scores.len()
        invariant
            index < scores.len(),
            index < k,
            forall|j: int|
                0 <= j < k && j < scores.len() ==> #[trigger] scores[j] <= scores[index as int],
            forall|j: int| 0 <= j < index ==> #[trigger] scores[j] < scores[index as int],
    {
        if scores[k] > scores[index] {
            index = k;
        }
    }
    index
}

/// Which of the moves with `scores` the engine makes at strength
/// `ai_type`: the best at the higher strengths, and at the lower ones the
/// one that `draw` falls on. With no scores, or where no score has any
/// weight, it is the first move.
pub fn choose_move(scores: &Vec<i8>, ai_type: &AIType, draw: usize) -> (index: usize)
    requires
        scores.len() <= 7,
    ensures
        index == chosen(scores@, *ai_type, draw as int),
{
    if scores.len() == 0 {
        return 0;
    }
    if plays_best(ai_type) {
        let index = pick_best(scores);
        proof {
            lemma_first_best(scores@, index as int);
        }
        index
    } else {
        let total = total_weight(scores);
        if draw < total {
            let index = pick_weighted(scores, draw);
            proof {
                lemma_drawn(scores@, draw as int, index as int);
            }
            index
        } else {
            0
        }
    }
}

/// The first of the highest scores is the only index that no score exceeds
/// and no earlier score equals.
pub proof fn lemma_first_best(scores: Seq<i8>, index: int)
    requires
        0 <= index < scores.len(),
        forall|k: int| 0 <= k < scores.len() ==> #[trigger] scores[k] <= scores[index],
        forall|k: int| 0 <= k < index ==> #[trigger] scores[k] < scores[index],
    ensures
        first_best(scores, scores.len() as int) == index,
{
    lemma_first_best_among(scores, scores.len() as int);
}

pub proof fn lemma_first_best_among(scores: Seq<i8>, n: int)
    requires
        1 <= n <= scores.len(),
    ensures
        0 <= first_best(scores, n) < n,
        forall|k: int| 0 <= k < n ==> #[trigger] scores[k] <= scores[first_best(scores, n)],
        forall|k: int|
            0 <= k < first_best(scores, n) ==> #[trigger] scores[k] < scores[first_best(scores, n)],
    decreases n,
{
    if n > 1 {
        lemma_first_best_among(scores, n - 1);
    }
}

/// The move that a draw falls on is the only one whose room holds the draw.
pub proof fn lemma_drawn(scores: Seq<i8>, draw: int, index: int)
    requires
        0 <= index < scores.len(),
        weight_below(scores, index) <= draw < weight_below(scores, index + 1),
    ensures
        drawn(scores, draw, scores.len() as int) == index,
{
    lemma_drawn_among(scores, draw, index, scores.len() as int);
}

proof fn lemma_drawn_among(scores: Seq<i8>, draw: int, index: int, n: int)
    requires
        0 <= index < scores.len(),
        0 <= n <= scores.len(),
        weight_below(scores, index) <= draw < weight_below(scores, index + 1),
    ensures
        n <= index ==> drawn(scores, draw, n) == n,
        n > index ==> drawn(scores, draw, n) == index,
    decreases n,
{
    if n > 0 {
        lemma_drawn_among(scores, draw, index, n - 1);
        lemma_weights_grow(scores, n, index);
        lemma_weights_grow(scores, index + 1, n);
    }
}

proof fn lemma_weights_grow(scores: Seq<i8>, n: int, m: int)
    ensures
        n <= m ==> weight_below(scores, n) <= weight_below(scores, m),
    decreases m,
{
    if n < m && m > 0 {
        lemma_weights_grow(scores, n, m - 1);
    }
}

/// The move that is made is one of those that were scored, or the first.
pub proof fn lemma_chosen_in_range(scores: Seq<i8>, ai_type: AIType, draw: int)
    requires
        0 <= draw,
    ensures
        chosen(scores, ai_type, draw) == 0 || 0 <= chosen(scores, ai_type, draw) < scores.len(),
{
    if scores.len() > 0 {
        lemma_first_best_among(scores, scores.len() as int);
        lemma_drawn_range(scores, draw, scores.len() as int);
    }
}

proof fn lemma_drawn_range(scores: Seq<i8>, draw: int, n: int)
    requires
        0 <= n,
        0 <= draw,
    ensures
        0 <= drawn(scores, draw, n) <= n,
        draw < weight_below(scores, n) ==> drawn(scores, draw, n) < n,
    decreases n,
{
    if n > 0 {
        lemma_drawn_range(scores, draw, n - 1);
    }
}

} // verus!
