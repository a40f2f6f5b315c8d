use vstd::prelude::*;

use crate::board::{
    apply_spec, empty_count, kth_zero, legal, lemma_apply_bounded, lemma_apply_changed_has_empty,
    lemma_zeros_upto_le, place_spec, rank_bounded, Action, Board,
};
use crate::eval::{eval, eval_spec};
use crate::phase::PlayableBoard;
use crate::rng::random_below;

verus! {

/// A fixed order on the actions, used to enumerate them and to break
/// ties deterministically: Up, Down, Left, Right.
pub open spec fn action_index(a: Action) -> int {
    match a {
        Action::Up => 0,
        Action::Down => 1,
        Action::Left => 2,
        Action::Right => 3,
    }
}

/// The action at a position of the fixed order.
fn action_of(i: usize) -> (a: Action)
    requires
        i < 4,
    ensures
        action_index(a) == i,
{
    match i {
        0 => Action::Up,
        1 => Action::Down,
        2 => Action::Left,
        _ => Action::Right,
    }
}

/// The default selection strategy: a uniformly random legal action.
pub fn select_action(board: PlayableBoard) -> (r: Option<Action>)
    ensures
        r is Some <==> exists|a: Action| legal(board@, a),
        r matches Some(a) ==> legal(board@, a),
{
    select_action_randomly(board)
}

/// Picks uniformly at random among the legal actions; None exactly on a
/// terminal board, where no action is legal.
pub fn select_action_randomly(board: PlayableBoard) -> (r: Option<Action>)
    ensures
        r is Some <==> exists|a: Action| legal(board@, a),
        r matches Some(a) ==> legal(board@, a),
{
    let mut acts: Vec<Action> = Vec::new();
    let mut idx: usize = 0;
    while idx < 4
        invariant
            idx <= 4,
            forall|n: int| 0 <= n < acts@.len() ==> legal(board@, #[trigger] acts@[n]),
            acts@.len() == 0 ==> forall|b: Action| action_index(b) < idx ==> !legal(board@, b),
        decreases 4 - idx,
    {
        let a = action_of(idx);
        if board.apply(a).is_some() {
            acts.push(a);
        }
        idx += 1;
    }
    let n = acts.len();
    if n == 0 {
        proof {
            assert forall|b: Action| !legal(board@, b) by {
                assert(action_index(b) < 4);
            }
        }
        None
    } else {
        let picked = random_below(n);
        Some(acts[picked])
    }
}

/// Picks the legal action whose immediate successor grid the evaluator
/// scores highest, breaking ties toward the earlier action in the fixed
/// order; None exactly on a terminal board. Single-ply: no chance
/// averaging. Ranks must leave room for one merge so every successor
/// stays within the evaluator's table.
pub fn select_action_greedily(board: PlayableBoard) -> (r: Option<Action>)
    requires
        rank_bounded(board@, 16),
    ensures
        r is Some <==> exists|a: Action| legal(board@, a),
        r matches Some(a) ==> legal(board@, a) && (forall|b: Action|
            legal(board@, b) ==> eval_spec(apply_spec(board@, b)) <= eval_spec(
                apply_spec(board@, a),
            )) && (forall|b: Action|
            legal(board@, b) && eval_spec(apply_spec(board@, b)) == eval_spec(
                apply_spec(board@, a),
            ) ==> action_index(a) <= action_index(b)),
{
    let mut best: Option<(Action, i64)> = None;
    let mut idx: usize = 0;
    while idx < 4
        invariant
            idx <= 4,
            rank_bounded(board@, 16),
            best is None ==> forall|b: Action| action_index(b) < idx ==> !legal(board@, b),
            best matches Some((ba, bv)) ==> legal(board@, ba) && action_index(ba) < idx && bv
                == eval_spec(apply_spec(board@, ba)) && (forall|b: Action|
                legal(board@, b) && action_index(b) < idx ==> eval_spec(apply_spec(board@, b))
                    <= bv) && (forall|b: Action|
                legal(board@, b) && action_index(b) < idx && eval_spec(apply_spec(board@, b)) == bv
                    ==> action_index(ba) <= action_index(b)),
        decreases 4 - idx,
    {
        let a = action_of(idx);
        match board.apply(a) {
            Some(rb) => {
                proof {
                    board.lemma_wf();
                    lemma_apply_bounded(board@, a, 16);
                }
                let v = rb.evaluate();
                best = match best {
                    None => Some((a, v)),
                    Some((ba, bv)) => {
                        if v > bv {
                            Some((a, v))
                        } else {
                            Some((ba, bv))
                        }
                    },
                };
            },
            None => {},
        }
        idx += 1;
    }
    match best {
        None => {
            proof {
                assert forall|b: Action| !legal(board@, b) by {
                    assert(action_index(b) < 4);
                }
            }
            None
        },
        Some((ba, _bv)) => {
            proof {
                assert forall|b: Action| legal(board@, b) implies action_index(b) < 4 by {}
            }
            Some(ba)
        },
    }
}

/// All search values are heuristic scores shifted up by this offset, so
/// they are nonnegative and whole-number arithmetic can average them.
pub const VALUE_OFFSET: i64 = 200_000_000_000;

/// An upper bound on every shifted search value.
pub const VALUE_BOUND: u64 = 210_000_000_000;

/// The evaluator score of a grid, shifted into the nonnegative range.
pub open spec fn shifted_eval(g: Seq<Seq<u8>>) -> int {
    eval_spec(g) + VALUE_OFFSET
}

pub open spec fn spec_max2(a: int, b: int) -> int {
    if a >= b {
        a
    } else {
        b
    }
}

/// The expectimax value of a board awaiting a move, to a remaining
/// budget of action layers: the evaluator score when the budget is
/// spent or the board is terminal, else the best expected value over
/// the legal actions.
pub open spec fn value_playable(g: Seq<Seq<u8>>, budget: nat) -> int
    decreases budget, 0nat, 0nat,
{
    if budget == 0 {
        shifted_eval(g)
    } else {
        let b1 = (budget - 1) as nat;
        let vu = if legal(g, Action::Up) {
            chance_sum(apply_spec(g, Action::Up), empty_count(apply_spec(g, Action::Up)), b1) / (10 * empty_count(apply_spec(g, Action::Up)) as int)
        } else {
            -1
        };
        let vd = if legal(g, Action::Down) {
            chance_sum(apply_spec(g, Action::Down), empty_count(apply_spec(g, Action::Down)), b1)
                / (10 * empty_count(apply_spec(g, Action::Down)) as int)
        } else {
            -1
        };
        let vl = if legal(g, Action::Left) {
            chance_sum(apply_spec(g, Action::Left), empty_count(apply_spec(g, Action::Left)), b1)
                / (10 * empty_count(apply_spec(g, Action::Left)) as int)
        } else {
            -1
        };
        let vr = if legal(g, Action::Right) {
            chance_sum(apply_spec(g, Action::Right), empty_count(apply_spec(g, Action::Right)), b1)
                / (10 * empty_count(apply_spec(g, Action::Right)) as int)
        } else {
            -1
        };
        let m = spec_max2(spec_max2(vu, vd), spec_max2(vl, vr));
        if m < 0 {
            shifted_eval(g)
        } else {
            m
        }
    }
}

/// The weighted sum of the expectimax values of the first k chance
/// placements of a board awaiting one: weight 9 for a rank-1 tile and 1
/// for a rank-2 tile on each empty cell.
pub open spec fn chance_sum(g: Seq<Seq<u8>>, k: nat, budget: nat) -> int
    decreases budget, 1nat, k,
{
    if k == 0 {
        0
    } else {
        chance_sum(g, (k - 1) as nat, budget) + 9 * value_playable(
            place_spec(g, kth_zero(g, k - 1), 1),
            budget,
        ) + value_playable(place_spec(g, kth_zero(g, k - 1), 2), budget)
    }
}

/// The expectimax value of a board awaiting its chance step: the
/// weighted average of the values of all its placements, each weight
/// over ten times the number of empty cells.
pub open spec fn value_chance(g: Seq<Seq<u8>>, budget: nat) -> int {
    chance_sum(g, empty_count(g), budget) / (10 * empty_count(g) as int)
}

/// The value backing each action at the root: the expected value of the
/// board the action yields, one action layer of the budget spent.
pub open spec fn action_value(g: Seq<Seq<u8>>, a: Action, budget: nat) -> int {
    value_chance(apply_spec(g, a), (budget - 1) as nat)
}

/// Counters accumulated across the nested search calls.
struct Stats {
    /// How many times the evaluator has been called.
    num_evals: u64,
}

/// The evaluator score of a board, shifted to a nonnegative value, with
/// the evaluation counter ticked.
fn eval_shifted(b: &Board, stats: &mut Stats) -> (v: u64)
    requires
        rank_bounded(b@, 17),
    ensures
        v == shifted_eval(b@),
        v <= VALUE_BOUND,
        final(stats).num_evals >= old(stats).num_evals,
{
    let e = eval(b);
    stats.num_evals = if stats.num_evals < u64::MAX {
        stats.num_evals + 1
    } else {
        stats.num_evals
    };
    (e + VALUE_OFFSET) as u64
}

/// The expectimax value of a board awaiting a move; see value_playable.
fn evaluate_playable(b: &Board, budget: usize, stats: &mut Stats) -> (v: u64)
    requires
        budget <= 15,
        rank_bounded(b@, (17 - budget) as u8),
    ensures
        v == value_playable(b@, budget as nat),
        v <= VALUE_BOUND,
    decreases budget, 0nat, 0nat,
{
    if budget == 0 {
        return eval_shifted(b, stats);
    }
    let mut best: Option<u64> = None;
    let mut idx: usize = 0;
    while idx < 4
        invariant
            idx <= 4,
            1 <= budget <= 15,
            rank_bounded(b@, (17 - budget) as u8),
            best is None ==> forall|a: Action| action_index(a) < idx ==> !legal(b@, a),
            best matches Some(v) ==> v <= VALUE_BOUND && (exists|a: Action|
                action_index(a) < idx && legal(b@, a) && v == value_chance(
                    apply_spec(b@, a),
                    (budget - 1) as nat,
                )) && (forall|a: Action|
                action_index(a) < idx && legal(b@, a) ==> value_chance(
                    apply_spec(b@, a),
                    (budget - 1) as nat,
                ) <= v),
        decreases 4 - idx,
    {
        let a = action_of(idx);
        match b.apply(a) {
            Some(nb) => {
                proof {
                    b.lemma_wf();
                    lemma_apply_bounded(b@, a, (17 - budget) as u8);
                    lemma_apply_changed_has_empty(b@, a);
                }
                let v = evaluate_randable(&nb, budget - 1, stats);
                best = match best {
                    None => Some(v),
                    Some(bv) => {
                        if v > bv {
                            Some(v)
                        } else {
                            Some(bv)
                        }
                    },
                };
            },
            None => {},
        }
        idx += 1;
    }
    match best {
        None => {
            proof {
                assert forall|a: Action| !legal(b@, a) by {
                    assert(action_index(a) < 4);
                }
            }
            eval_shifted(b, stats)
        },
        Some(v) => {
            proof {
                assert forall|a: Action| legal(b@, a) implies action_index(a) < 4 by {}
            }
            v
        },
    }
}

/// The expectimax value of a board awaiting its chance step; see
/// value_chance.
fn evaluate_randable(b: &Board, budget: usize, stats: &mut Stats) -> (v: u64)
    requires
        budget <= 15,
        rank_bounded(b@, (17 - budget) as u8),
        empty_count(b@) >= 1,
    ensures
        v == value_chance(b@, budget as nat),
        v <= VALUE_BOUND,
    decreases budget, 1nat, 0nat,
{
    let e = b.num_empty();
    proof {
        lemma_zeros_upto_le(b@, 16);
    }
    let mut acc: u64 = 0;
    let mut k: usize = 0;
    while k < e
        invariant
            k <= e,
            1 <= e <= 16,
            e == empty_count(b@),
            budget <= 15,
            rank_bounded(b@, (17 - budget) as u8),
            acc == chance_sum(b@, k as nat, budget as nat),
            acc <= k * (10 * VALUE_BOUND),
        decreases e - k,
    {
        let idx = b.nth_empty(k);
        let c1 = b.with_cell(idx, 1);
        let c2 = b.with_cell(idx, 2);
        proof {
            assert forall|i: int, j: int| 0 <= i < 4 && 0 <= j < 4 implies c1@[i][j] <= (17
                - budget) as u8 && c2@[i][j] <= (17 - budget) as u8 by {
                assert(c1@ == place_spec(b@, idx as int, 1));
                assert(c2@ == place_spec(b@, idx as int, 2));
            }
        }
        let v1 = evaluate_playable(&c1, budget, stats);
        let v2 = evaluate_playable(&c2, budget, stats);
        proof {
            assert(acc + 9 * v1 + v2 <= (k + 1) * (10 * (VALUE_BOUND as int))) by (nonlinear_arith)
                requires
                    acc <= k * (10 * (VALUE_BOUND as int)),
                    0 <= k <= 16,
                    v1 <= VALUE_BOUND,
                    v2 <= VALUE_BOUND,
            ;
            assert(((16 as int) + 1) * (10 * (VALUE_BOUND as int)) < u64::MAX as int)
                by (nonlinear_arith);
            assert((k + 1) * (10 * (VALUE_BOUND as int)) <= ((16 as int) + 1) * (10 * (
            VALUE_BOUND as int))) by (nonlinear_arith)
                requires
                    0 <= k <= 16,
            ;
        }
        acc = acc + 9 * v1 + v2;
        k += 1;
    }
    let denom = 10 * (e as u64);
    let v = acc / denom;
    proof {
        assert((acc as int) / (10 * (e as int)) <= VALUE_BOUND) by (nonlinear_arith)
            requires
                0 <= acc <= e * (10 * VALUE_BOUND),
                1 <= e <= 16,
        ;
    }
    v
}

/// Bounded expectimax: recursively, to a budget of remaining action
/// layers, scores each legal action by the probability-weighted average
/// of the values of all its chance placements, maximizing over actions
/// at action layers and scoring by the evaluator where the budget runs
/// out or the game ends. Returns the legal action of highest expected
/// value, breaking ties toward the earlier action in the fixed order;
/// None exactly on a terminal board. The budget policy: `max_actions`
/// counts action layers, at least one for the root; ranks must leave
/// one merge of headroom per layer so every grid searched stays within
/// the evaluator's table.
pub fn select_action_expectimax(board: PlayableBoard, max_actions: usize) -> (r: Option<Action>)
    requires
        1 <= max_actions <= 15,
        rank_bounded(board@, (17 - max_actions) as u8),
    ensures
        r is Some <==> exists|a: Action| legal(board@, a),
        r matches Some(a) ==> legal(board@, a) && (forall|b: Action|
            legal(board@, b) ==> action_value(board@, b, max_actions as nat) <= action_value(
                board@,
                a,
                max_actions as nat,
            )) && (forall|b: Action|
            legal(board@, b) && action_value(board@, b, max_actions as nat) == action_value(
                board@,
                a,
                max_actions as nat,
            ) ==> action_index(a) <= action_index(b)),
{
    let mut stats = Stats { num_evals: 0 };
    let mut best: Option<(Action, u64)> = None;
    let mut idx: usize = 0;
    while idx < 4
        invariant
            idx <= 4,
            1 <= max_actions <= 15,
            rank_bounded(board@, (17 - max_actions) as u8),
            best is None ==> forall|b: Action| action_index(b) < idx ==> !legal(board@, b),
            best matches Some((ba, bv)) ==> legal(board@, ba) && action_index(ba) < idx && bv
                == action_value(board@, ba, max_actions as nat) && (forall|b: Action|
                legal(board@, b) && action_index(b) < idx ==> action_value(
                    board@,
                    b,
                    max_actions as nat,
                ) <= bv) && (forall|b: Action|
                legal(board@, b) && action_index(b) < idx && action_value(
                    board@,
                    b,
                    max_actions as nat,
                ) == bv ==> action_index(ba) <= action_index(b)),
        decreases 4 - idx,
    {
        let a = action_of(idx);
        match board.apply(a) {
            Some(rb) => {
                proof {
                    board.lemma_wf();
                    lemma_apply_bounded(board@, a, (17 - max_actions) as u8);
                }
                let nb = rb.board();
                let v = evaluate_randable(&nb, max_actions - 1, &mut stats);
                best = match best {
                    None => Some((a, v)),
                    Some((ba, bv)) => {
                        if v > bv {
                            Some((a, v))
                        } else {
                            Some((ba, bv))
                        }
                    },
                };
            },
            None => {},
        }
        idx += 1;
    }
    match best {
        None => {
            proof {
                assert forall|b: Action| !legal(board@, b) by {
                    assert(action_index(b) < 4);
                }
            }
            None
        },
        Some((ba, _bv)) => {
            proof {
                assert forall|b: Action| legal(board@, b) implies action_index(b) < 4 by {}
            }
            Some(ba)
        },
    }
}

} // verus!
