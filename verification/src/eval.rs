use vstd::prelude::*;

use crate::board::{rank_bounded, row_bounded, transpose_spec, wf_grid, Board};
use crate::phase::RandableBoard;

verus! {

/// All scores are fixed-point values in thousandths of a point, so the
/// fractional tile-value penalties stay exact integers.
pub const SCALE: i64 = 1000;

/// The base score of a row that is still in play, scaled.
pub const NOT_LOST: i64 = 200_000_000;

/// Weight of the monotonicity reward, scaled.
pub const MONOTONICITY_WEIGHT: i64 = 47_000;

/// Weight of each empty cell, scaled.
pub const EMPTY_WEIGHT: i64 = 270_000;

/// Weight of each adjacent equal pair, scaled.
pub const ADJACENT_WEIGHT: i64 = 700_000;

/// Weight of the tile-value penalty. The per-rank penalties below are
/// already scaled, so this weight is not.
pub const SUM_WEIGHT: i64 = 11;

/// rank^4, the cost unit of the monotonicity heuristic.
pub open spec fn pow4(x: u8) -> int {
    (x as int) * (x as int) * (x as int) * (x as int)
}

/// Total drop when reading the row left to right: for each adjacent pair
/// with the left rank higher, the difference of fourth powers.
pub open spec fn left_cost(s: Seq<u8>) -> int
    decreases s.len(),
{
    if s.len() < 2 {
        0
    } else {
        left_cost(s.drop_last()) + (if s[s.len() - 2] > s[s.len() - 1] {
            pow4(s[s.len() - 2]) - pow4(s[s.len() - 1])
        } else {
            0
        })
    }
}

/// Total rise when reading the row left to right, the counterpart of
/// left_cost.
pub open spec fn right_cost(s: Seq<u8>) -> int
    decreases s.len(),
{
    if s.len() < 2 {
        0
    } else {
        right_cost(s.drop_last()) + (if s[s.len() - 1] > s[s.len() - 2] {
            pow4(s[s.len() - 1]) - pow4(s[s.len() - 2])
        } else {
            0
        })
    }
}

/// The monotonicity term: the negated smaller of the two directional
/// costs, rewarding rows monotone in either direction. This min-based
/// form is the heuristic as designed; it is an approximation and is kept
/// exactly as it is.
pub open spec fn mono_spec(s: Seq<u8>) -> int {
    if left_cost(s) <= right_cost(s) {
        -left_cost(s)
    } else {
        -right_cost(s)
    }
}

/// The number of empty cells of a row.
pub open spec fn row_zeros(s: Seq<u8>) -> nat
    decreases s.len(),
{
    if s.len() == 0 {
        0
    } else {
        row_zeros(s.drop_last()) + (if s.last() == 0 {
            1nat
        } else {
            0nat
        })
    }
}

/// Greedy left-to-right count of immediately adjacent equal nonzero
/// ranks; a matched pair consumes both cells, so pairs never overlap.
pub open spec fn adj_spec(s: Seq<u8>) -> nat
    decreases s.len(),
{
    if s.len() < 2 {
        0
    } else if s[0] != 0 && s[0] == s[1] {
        1 + adj_spec(s.skip(2))
    } else {
        adj_spec(s.skip(1))
    }
}

/// rank^3.5 in thousandths, the tile-value penalty unit. Defined over
/// the valid rank range 0..=17; a rank beyond it is a caller defect and
/// is ruled out by precondition, never clamped.
pub open spec fn rank_penalty_spec(r: u8) -> int {
    if r == 0 {
        0
    } else if r == 1 {
        1_000
    } else if r == 2 {
        11_314
    } else if r == 3 {
        46_765
    } else if r == 4 {
        128_000
    } else if r == 5 {
        279_508
    } else if r == 6 {
        529_090
    } else if r == 7 {
        907_493
    } else if r == 8 {
        1_448_155
    } else if r == 9 {
        2_187_000
    } else if r == 10 {
        3_162_278
    } else if r == 11 {
        4_414_428
    } else if r == 12 {
        5_985_968
    } else if r == 13 {
        7_921_396
    } else if r == 14 {
        10_267_107
    } else if r == 15 {
        13_071_318
    } else if r == 16 {
        16_384_000
    } else if r == 17 {
        20_256_818
    } else {
        0
    }
}

/// The summed tile-value penalty of a row.
pub open spec fn penalty_sum(s: Seq<u8>) -> int
    decreases s.len(),
{
    if s.len() == 0 {
        0
    } else {
        penalty_sum(s.drop_last()) + rank_penalty_spec(s.last())
    }
}

/// The score of one row or column, scaled by SCALE.
pub open spec fn eval_row_spec(s: Seq<u8>) -> int {
    NOT_LOST + MONOTONICITY_WEIGHT * mono_spec(s) + EMPTY_WEIGHT * row_zeros(s) + ADJACENT_WEIGHT
        * adj_spec(s) - SUM_WEIGHT * penalty_sum(s)
}

/// The score of a grid: the sum of the row scores of every row and every
/// column, scaled by SCALE.
pub open spec fn eval_spec(g: Seq<Seq<u8>>) -> int {
    eval_row_spec(g[0]) + eval_row_spec(g[1]) + eval_row_spec(g[2]) + eval_row_spec(g[3])
        + eval_row_spec(transpose_spec(g)[0]) + eval_row_spec(transpose_spec(g)[1]) + eval_row_spec(
        transpose_spec(g)[2],
    ) + eval_row_spec(transpose_spec(g)[3])
}

/// rank^3.5 in thousandths, looked up in the fixed table.
fn rank_penalty(r: u8) -> (p: u64)
    requires
        r <= 17,
    ensures
        p == rank_penalty_spec(r),
        p <= 20_256_818,
{
    match r {
        0 => 0,
        1 => 1_000,
        2 => 11_314,
        3 => 46_765,
        4 => 128_000,
        5 => 279_508,
        6 => 529_090,
        7 => 907_493,
        8 => 1_448_155,
        9 => 2_187_000,
        10 => 3_162_278,
        11 => 4_414_428,
        12 => 5_985_968,
        13 => 7_921_396,
        14 => 10_267_107,
        15 => 13_071_318,
        16 => 16_384_000,
        _ => 20_256_818,
    }
}

/// The monotonicity term of a row, exactly as specified.
fn monotonicity(row: &[u8; 4]) -> (m: i64)
    requires
        row_bounded(row@, 17),
    ensures
        m == mono_spec(row@),
        -250_563 <= m <= 0,
{
    let mut left: i64 = 0;
    let mut right: i64 = 0;
    let mut i: usize = 0;
    proof {
        assert(row@.take(1).len() == 1);
    }
    while i < 3
        invariant
            i <= 3,
            row_bounded(row@, 17),
            left == left_cost(row@.take(i + 1)),
            right == right_cost(row@.take(i + 1)),
            0 <= left <= 83_521 * i,
            0 <= right <= 83_521 * i,
        decreases 3 - i,
    {
        let cur = row[i];
        let next = row[i + 1];
        proof {
            assert(cur == row@[i as int] && next == row@[i + 1]);
        }
        let c4: i64 = pow4_exec(cur);
        let n4: i64 = pow4_exec(next);
        proof {
            assert(row@.take(i + 2).drop_last() =~= row@.take(i + 1));
            assert(row@.take(i + 2).len() == i + 2);
            assert(row@.take(i + 2)[i as int] == row@[i as int]);
            assert(row@.take(i + 2)[i + 1] == row@[i + 1]);
        }
        if cur > next {
            proof {
                assert(c4 >= n4) by (nonlinear_arith)
                    requires
                        c4 == (cur as int) * (cur as int) * (cur as int) * (cur as int),
                        n4 == (next as int) * (next as int) * (next as int) * (next as int),
                        cur > next,
                        next >= 0,
                ;
            }
            left = left + (c4 - n4);
        } else if next > cur {
            proof {
                assert(n4 >= c4) by (nonlinear_arith)
                    requires
                        c4 == (cur as int) * (cur as int) * (cur as int) * (cur as int),
                        n4 == (next as int) * (next as int) * (next as int) * (next as int),
                        next > cur,
                        cur >= 0,
                ;
            }
            right = right + (n4 - c4);
        }
        i += 1;
    }
    proof {
        assert(row@.take(4) =~= row@);
    }
    if left <= right {
        -left
    } else {
        -right
    }
}

/// rank^4 for a valid rank.
fn pow4_exec(x: u8) -> (p: i64)
    requires
        x <= 17,
    ensures
        p == pow4(x),
        0 <= p <= 83_521,
{
    let xi: i64 = x as i64;
    proof {
        assert(0 <= xi * xi <= 289) by (nonlinear_arith)
            requires
                0 <= xi <= 17,
        ;
    }
    let x2: i64 = xi * xi;
    proof {
        assert(0 <= x2 * x2 <= 83_521) by (nonlinear_arith)
            requires
                0 <= x2 <= 289,
        ;
        assert(x2 * x2 == (x as int) * (x as int) * (x as int) * (x as int)) by (nonlinear_arith)
            requires
                x2 == (x as int) * (x as int),
        ;
    }
    x2 * x2
}

/// The greedy count of adjacent equal nonzero pairs of a row.
fn adjacent(row: &[u8; 4]) -> (c: u64)
    ensures
        c == adj_spec(row@),
        c <= 2,
{
    let mut count: u64 = 0;
    let mut i: usize = 0;
    proof {
        assert(row@.skip(0) =~= row@);
    }
    while i < 3
        invariant
            i <= 4,
            adj_spec(row@) == count + adj_spec(row@.skip(i as int)),
            2 * count <= i,
        decreases 4 - i,
    {
        if row[i] != 0 && row[i] == row[i + 1] {
            proof {
                assert(row@.skip(i as int)[0] == row@[i as int]);
                assert(row@.skip(i as int)[1] == row@[i + 1]);
                assert(row@.skip(i as int).skip(2) =~= row@.skip(i + 2));
            }
            count += 1;
            i += 2;
        } else {
            proof {
                assert(row@.skip(i as int)[0] == row@[i as int]);
                if i + 1 < 4 {
                    assert(row@.skip(i as int)[1] == row@[i + 1]);
                }
                assert(row@.skip(i as int).skip(1) =~= row@.skip(i + 1));
            }
            i += 1;
        }
    }
    proof {
        if i == 3 {
            assert(row@.skip(3).len() == 1);
        } else {
            assert(row@.skip(4).len() == 0);
        }
    }
    count
}

/// The number of empty cells of a row.
fn row_empty(row: &[u8; 4]) -> (c: u64)
    ensures
        c == row_zeros(row@),
        c <= 4,
{
    let mut count: u64 = 0;
    let mut i: usize = 0;
    while i < 4
        invariant
            i <= 4,
            count == row_zeros(row@.take(i as int)),
            count <= i,
        decreases 4 - i,
    {
        proof {
            assert(row@.take(i + 1).drop_last() =~= row@.take(i as int));
            assert(row@.take(i + 1).last() == row@[i as int]);
        }
        if row[i] == 0 {
            count += 1;
        }
        i += 1;
    }
    proof {
        assert(row@.take(4) =~= row@);
    }
    count
}

/// The summed tile-value penalty of a row.
fn row_penalty(row: &[u8; 4]) -> (p: u64)
    requires
        row_bounded(row@, 17),
    ensures
        p == penalty_sum(row@),
        p <= 81_027_272,
{
    let mut total: u64 = 0;
    let mut i: usize = 0;
    while i < 4
        invariant
            i <= 4,
            row_bounded(row@, 17),
            total == penalty_sum(row@.take(i as int)),
            total <= 20_256_818 * i,
        decreases 4 - i,
    {
        proof {
            assert(row@.take(i + 1).drop_last() =~= row@.take(i as int));
            assert(row@.take(i + 1).last() == row@[i as int]);
        }
        total = total + rank_penalty(row[i]);
        i += 1;
    }
    proof {
        assert(row@.take(4) =~= row@);
    }
    total
}

/// The score of one row: the base term plus the weighted monotonicity,
/// emptiness and adjacency terms, minus the weighted tile-value penalty.
pub fn eval_row(row: &[u8; 4]) -> (v: i64)
    requires
        row_bounded(row@, 17),
    ensures
        v == eval_row_spec(row@),
        -13_000_000_000 <= v <= 300_000_000,
{
    let m = monotonicity(row);
    let z = row_empty(row);
    let a = adjacent(row);
    let p = row_penalty(row);
    NOT_LOST + MONOTONICITY_WEIGHT * m + EMPTY_WEIGHT * (z as i64) + ADJACENT_WEIGHT * (a as i64)
        - SUM_WEIGHT * (p as i64)
}

/// The score of a grid: every row and every column scored by eval_row
/// and summed. Pure, and scaled by SCALE.
pub fn eval(board: &Board) -> (v: i64)
    requires
        rank_bounded(board@, 17),
    ensures
        v == eval_spec(board@),
        -104_000_000_000 <= v <= 2_400_000_000,
{
    let t = board.transposed();
    proof {
        assert forall|i: int| 0 <= i < 4 implies row_bounded(board@[i], 17) && row_bounded(
            t@[i],
            17,
        ) by {}
        assert(board.cells[0]@ == board@[0] && board.cells[1]@ == board@[1] && board.cells[2]@
            == board@[2] && board.cells[3]@ == board@[3]);
        assert(t.cells[0]@ == t@[0] && t.cells[1]@ == t@[1] && t.cells[2]@ == t@[2] && t.cells[3]@
            == t@[3]);
    }
    let v = eval_row(&board.cells[0]) + eval_row(&board.cells[1]) + eval_row(&board.cells[2])
        + eval_row(&board.cells[3]) + eval_row(&t.cells[0]) + eval_row(&t.cells[1]) + eval_row(
        &t.cells[2],
    ) + eval_row(&t.cells[3]);
    v
}

/// The evaluator is transpose-symmetric: a grid and its transpose score
/// the same, because the evaluator sums the same eight lines either way.
pub proof fn lemma_eval_transpose(g: Seq<Seq<u8>>)
    requires
        wf_grid(g),
    ensures
        eval_spec(transpose_spec(g)) == eval_spec(g),
{
    crate::board::lemma_transpose_involutive(g);
}

impl RandableBoard {
    /// The heuristic score of this board.
    pub fn evaluate(&self) -> (v: i64)
        requires
            rank_bounded(self@, 17),
        ensures
            v == eval_spec(self@),
    {
        let b = self.board();
        proof {
            assert(rank_bounded(b@, 17));
        }
        eval(&b)
    }
}

} // verus!
