use vstd::prelude::*;

use crate::board::{
    apply_spec, cell_at, empty_count, empty_grid, grid_has_rank, kth_zero, legal,
    lemma_apply_changed_has_empty, place_spec, wf_grid, zeros_upto, Action, Board,
};
use crate::rng::{random_below, random_ratio};

verus! {

/// The weights of a sequence of weighted boards, summed.
pub open spec fn pair_weight_sum<T>(s: Seq<(u64, T)>) -> int
    decreases s.len(),
{
    if s.len() == 0 {
        0
    } else {
        pair_weight_sum(s.drop_last()) + s.last().0
    }
}

impl Board {
    /// Places a random tile on one of the empty cells, uniformly chosen:
    /// rank 1 with probability 9/10, rank 2 with probability 1/10. The
    /// board must hold an empty cell; a full board is a caller defect.
    pub fn add_random(&self) -> (r: Board)
        requires
            empty_count(self@) > 0,
        ensures
            exists|idx: int, v: u8|
                0 <= idx < 16 && cell_at(self@, idx) == 0 && (v == 1 || v == 2) && r@
                    == place_spec(self@, idx, v),
    {
        let n = self.num_empty();
        let k = random_below(n);
        let idx = self.nth_empty(k);
        let v: u8 = if random_ratio(9, 10) {
            1
        } else {
            2
        };
        let r = self.with_cell(idx, v);
        proof {
            assert(cell_at(self@, idx as int) == 0 && (v == 1 || v == 2) && r@ == place_spec(
                self@,
                idx as int,
                v,
            ));
        }
        r
    }

    /// Deterministically lists every chance outcome of the next placement,
    /// in row-major order of the empty cells, rank 1 before rank 2 for
    /// each cell. The entry weight is 9 for a rank-1 tile and 1 for a
    /// rank-2 tile; with e empty cells the probability of an entry is its
    /// weight over 10*e, and the weights sum to exactly 10*e.
    pub fn random_successors(&self) -> (r: Vec<(u64, Board)>)
        ensures
            r@.len() == 2 * empty_count(self@),
            pair_weight_sum(r@) == 10 * empty_count(self@),
            forall|n: int|
                0 <= n < r@.len() ==> (#[trigger] r@[n]).0 == (if n % 2 == 0 {
                    9int
                } else {
                    1int
                }),
            forall|n: int|
                0 <= n < r@.len() ==> (#[trigger] r@[n]).1@ == place_spec(
                    self@,
                    kth_zero(self@, n / 2),
                    if n % 2 == 0 {
                        1u8
                    } else {
                        2u8
                    },
                ),
    {
        let e = self.num_empty();
        let mut out: Vec<(u64, Board)> = Vec::new();
        let mut k: usize = 0;
        while k < e
            invariant
                k <= e,
                e == empty_count(self@),
                out@.len() == 2 * k,
                pair_weight_sum(out@) == 10 * k,
                forall|n: int|
                    0 <= n < out@.len() ==> (#[trigger] out@[n]).0 == (if n % 2 == 0 {
                        9int
                    } else {
                        1int
                    }),
                forall|n: int|
                    0 <= n < out@.len() ==> (#[trigger] out@[n]).1@ == place_spec(
                        self@,
                        kth_zero(self@, n / 2),
                        if n % 2 == 0 {
                            1u8
                        } else {
                            2u8
                        },
                    ),
            decreases e - k,
        {
            let idx = self.nth_empty(k);
            let b1 = self.with_cell(idx, 1);
            let b2 = self.with_cell(idx, 2);
            let ghost pre = out@;
            out.push((9u64, b1));
            out.push((1u64, b2));
            proof {
                assert(out@.drop_last() =~= pre.push((9u64, b1)));
                assert(pre.push((9u64, b1)).drop_last() =~= pre);
                assert(pair_weight_sum(pre.push((9u64, b1))) == pair_weight_sum(pre) + 9);
                assert(pair_weight_sum(out@) == pair_weight_sum(pre.push((9u64, b1))) + 1);
                assert((2 * k) % 2 == 0 && (2 * k + 1) % 2 == 1 && (2 * k) / 2 == k as int && (2
                    * k + 1) / 2 == k as int);
            }
            k += 1;
        }
        out
    }
}

/// A board on which the next step is a player move.
#[derive(Debug, Clone, Copy, PartialEq, Eq, Hash)]
pub struct PlayableBoard(Board);

impl View for PlayableBoard {
    type V = Seq<Seq<u8>>;

    closed spec fn view(&self) -> Seq<Seq<u8>> {
        self.0@
    }
}

/// A board on which the next step is the chance placement of a tile.
#[derive(Debug, Clone, Copy, PartialEq, Eq, Hash)]
pub struct RandableBoard(Board);

impl View for RandableBoard {
    type V = Seq<Seq<u8>>;

    closed spec fn view(&self) -> Seq<Seq<u8>> {
        self.0@
    }
}

impl PlayableBoard {
    /// The initial board: a single random tile of rank 1 or 2 on an
    /// otherwise empty grid.
    pub fn init() -> (r: PlayableBoard)
        ensures
            exists|idx: int, v: u8|
                0 <= idx < 16 && (v == 1 || v == 2) && r@ == place_spec(empty_grid(), idx, v),
            wf_grid(r@),
    {
        let b = Board::empty();
        proof {
            lemma_empty_grid_zeros(16);
        }
        let placed = b.add_random();
        let r = PlayableBoard(placed);
        proof {
            placed.lemma_wf();
        }
        r
    }

    /// Wraps a plain grid as a board awaiting a move.
    pub fn from_board(b: Board) -> (r: PlayableBoard)
        ensures
            r@ == b@,
    {
        PlayableBoard(b)
    }

    /// Every board value is a well-shaped grid.
    pub proof fn lemma_wf(&self)
        ensures
            wf_grid(self@),
    {
        self.0.lemma_wf();
    }

    /// The plain grid value.
    pub fn board(&self) -> (b: Board)
        ensures
            b@ == self@,
    {
        self.0
    }

    /// Attempts a move. Returns the board awaiting its chance step when
    /// the move is legal, and None when the move would not change the
    /// grid.
    pub fn apply(&self, action: Action) -> (r: Option<RandableBoard>)
        ensures
            r is Some <==> legal(self@, action),
            r matches Some(b) ==> b@ == apply_spec(self@, action) && empty_count(b@) >= 1,
    {
        proof {
            self.0.lemma_wf();
            if legal(self@, action) {
                lemma_apply_changed_has_empty(self@, action);
            }
        }
        match self.0.apply(action) {
            Some(board) => Some(RandableBoard(board)),
            None => None,
        }
    }

    /// The board holds some tile of rank `i` or higher.
    pub fn has_at_least_tile(&self, i: u8) -> (b: bool)
        ensures
            b == grid_has_rank(self@, i),
    {
        self.0.has_at_least_tile(i)
    }
}

impl RandableBoard {
    /// Wraps a plain grid as a board awaiting its chance step.
    pub fn from_board(b: Board) -> (r: RandableBoard)
        ensures
            r@ == b@,
    {
        RandableBoard(b)
    }

    /// Every board value is a well-shaped grid.
    pub proof fn lemma_wf(&self)
        ensures
            wf_grid(self@),
    {
        self.0.lemma_wf();
    }

    /// The plain grid value.
    pub fn board(&self) -> (b: Board)
        ensures
            b@ == self@,
    {
        self.0
    }

    /// Counts the empty cells.
    pub fn num_empty(&self) -> (n: usize)
        ensures
            n == empty_count(self@),
    {
        self.0.num_empty()
    }

    /// Completes the turn: places a random tile on an empty cell, giving
    /// the next board awaiting a move. The board must hold an empty cell.
    pub fn with_random_tile(&self) -> (r: PlayableBoard)
        requires
            empty_count(self@) > 0,
        ensures
            exists|idx: int, v: u8|
                0 <= idx < 16 && cell_at(self@, idx) == 0 && (v == 1 || v == 2) && r@
                    == place_spec(self@, idx, v),
    {
        PlayableBoard(self.0.add_random())
    }

    /// Lists every chance outcome of the next placement, with its weight;
    /// see Board::random_successors for the exact order and weights.
    pub fn successors(&self) -> (r: Vec<(u64, PlayableBoard)>)
        ensures
            r@.len() == 2 * empty_count(self@),
            pair_weight_sum(r@) == 10 * empty_count(self@),
            forall|n: int|
                0 <= n < r@.len() ==> (#[trigger] r@[n]).0 == (if n % 2 == 0 {
                    9int
                } else {
                    1int
                }),
            forall|n: int|
                0 <= n < r@.len() ==> (#[trigger] r@[n]).1@ == place_spec(
                    self@,
                    kth_zero(self@, n / 2),
                    if n % 2 == 0 {
                        1u8
                    } else {
                        2u8
                    },
                ),
    {
        let raw = self.0.random_successors();
        let mut out: Vec<(u64, PlayableBoard)> = Vec::new();
        let mut i: usize = 0;
        let rlen = raw.len();
        while i < rlen
            invariant
                i <= rlen,
                rlen == raw@.len(),
                out@.len() == i,
                rlen == 2 * empty_count(self@),
                pair_weight_sum(raw@) == 10 * empty_count(self@),
                forall|n: int| 0 <= n < i ==> (#[trigger] out@[n]).0 == raw@[n].0,
                forall|n: int| 0 <= n < i ==> (#[trigger] out@[n]).1@ == raw@[n].1@,
                pair_weight_sum(out@) == pair_weight_sum(raw@.take(i as int)),
                forall|n: int|
                    0 <= n < raw@.len() ==> (#[trigger] raw@[n]).0 == (if n % 2 == 0 {
                        9int
                    } else {
                        1int
                    }),
                forall|n: int|
                    0 <= n < raw@.len() ==> (#[trigger] raw@[n]).1@ == place_spec(
                        self@,
                        kth_zero(self@, n / 2),
                        if n % 2 == 0 {
                            1u8
                        } else {
                            2u8
                        },
                    ),
            decreases rlen - i,
        {
            let (w, b) = raw[i];
            let ghost pre = out@;
            out.push((w, PlayableBoard(b)));
            proof {
                assert(out@.drop_last() =~= pre);
                assert(pair_weight_sum(out@) == pair_weight_sum(pre) + w);
                assert(raw@.take(i + 1).drop_last() =~= raw@.take(i as int));
                assert(raw@.take(i + 1).last() == raw@[i as int]);
                assert(pair_weight_sum(raw@.take(i + 1)) == pair_weight_sum(raw@.take(i as int))
                    + raw@[i as int].0);
            }
            i += 1;
        }
        proof {
            assert(raw@.take(rlen as int) =~= raw@);
        }
        out
    }
}

/// The empty grid has sixteen empty cells.
pub proof fn lemma_empty_grid_zeros(k: int)
    requires
        0 <= k <= 16,
    ensures
        zeros_upto(empty_grid(), k) == k,
    decreases k,
{
    if k > 0 {
        lemma_empty_grid_zeros(k - 1);
        assert(0 <= (k - 1) / 4 < 4 && 0 <= (k - 1) % 4 < 4) by (nonlinear_arith)
            requires
                0 < k <= 16,
        ;
        assert(cell_at(empty_grid(), k - 1) == 0);
    }
}

} // verus!
