use vstd::prelude::*;

use crate::board::{grid_has_rank, legal, Action};
use crate::phase::PlayableBoard;
use crate::search::select_action_randomly;

verus! {

/// How one simulated game ended. A failure should never occur with a
/// selector that honours its contract: it records the defect, with the
/// offending direction and the board it was requested on.
#[derive(Debug, Clone, Copy, PartialEq, Eq)]
pub enum GameOutcome {
    /// The game ran to its natural end or to its deadline.
    Success { num_moves: u64, board: PlayableBoard },
    /// The selector asked for a direction the board rejects.
    Failure { action: Action, board: PlayableBoard },
}

/// The one capability a strategy provides: choose a direction for a
/// board awaiting a move, or none to declare the game over. The game
/// loop holds no selector to its word: an illegal choice becomes a
/// failure outcome, never a crash.
pub trait Selector {
    /// Chooses a direction for the board, or none to stop.
    fn select(&mut self, board: &PlayableBoard) -> Option<Action>;
}

/// The shipped strategy: a uniformly random legal action.
pub struct RandomSelector {}

impl Selector for RandomSelector {
    fn select(&mut self, board: &PlayableBoard) -> Option<Action> {
        select_action_randomly(*board)
    }
}

/// Declares std::time::Instant, the wall-clock timestamp the game loop
/// holds. The value is opaque here; only the wrappers below touch it.
#[verifier::external_type_specification]
#[verifier::external_body]
pub struct ExInstant(std::time::Instant);

/// Relies on std::time::Instant::now for a wall-clock timestamp.
/// Nothing can be promised of a clock reading.
#[verifier::external_body]
fn instant_now() -> (r: std::time::Instant) {
    std::time::Instant::now()
}

/// Relies on std::time::Instant::elapsed for the time since a
/// timestamp. Nothing can be promised of a clock reading.
#[verifier::external_body]
fn elapsed_since(start: &std::time::Instant) -> (r: core::time::Duration) {
    start.elapsed()
}

/// Relies on the ordering of core::time::Duration (its PartialOrd).
/// The operands are opaque here, so nothing is claimed of the result.
#[verifier::external_body]
fn duration_gt(a: &core::time::Duration, b: &core::time::Duration) -> (r: bool) {
    *a > *b
}

/// Plays one game with the shipped uniformly random strategy. Because
/// that strategy only ever returns legal directions, the outcome is
/// always a success: the game ran to a terminal board, to its deadline,
/// or to the move counter's limit.
pub fn play(timeout: &core::time::Duration) -> (o: GameOutcome)
    ensures
        o matches GameOutcome::Success { .. },
{
    let start = instant_now();
    let mut num_moves: u64 = 0;
    let mut board = PlayableBoard::init();
    while num_moves < u64::MAX
        invariant
            true,
        decreases u64::MAX - num_moves,
    {
        let chosen = select_action_randomly(board);
        match chosen {
            None => {
                return GameOutcome::Success { num_moves, board };
            },
            Some(action) => {
                let elapsed = elapsed_since(&start);
                if duration_gt(&elapsed, timeout) {
                    return GameOutcome::Success { num_moves, board };
                }
                num_moves = num_moves + 1;
                match board.apply(action) {
                    None => {
                        // the random strategy only returns legal actions
                        proof {
                            assert(false);
                        }
                        return GameOutcome::Success { num_moves, board };
                    },
                    Some(played) => {
                        board = played.with_random_tile();
                    },
                }
            },
        }
    }
    GameOutcome::Success { num_moves, board }
}

/// Plays one game under any selection strategy: start from the initial
/// board, ask the selector for a direction each turn, apply it, and
/// complete the turn with a random tile. Stops with a success when the
/// selector declares the game over or when the deadline has passed (a
/// timeout is a valid partial outcome, not an error), and with a
/// failure when the selector asks for an illegal direction — the
/// defect is recorded, never retried and never a crash. The deadline is
/// polled once per move, after the selector answers and before the move
/// is applied.
pub fn play_with<S: Selector>(selector: &mut S, timeout: &core::time::Duration) -> (o: GameOutcome)
    ensures
        o matches GameOutcome::Failure { action, board } ==> !legal(board@, action),
{
    let start = instant_now();
    let mut num_moves: u64 = 0;
    let mut board = PlayableBoard::init();
    // The move counter doubles as fuel: a game of u64::MAX moves is out
    // of physical reach, and stopping there is the same valid partial
    // outcome a deadline produces.
    while num_moves < u64::MAX
        invariant
            true,
        decreases u64::MAX - num_moves,
    {
        let chosen = selector.select(&board);
        match chosen {
            None => {
                return GameOutcome::Success { num_moves, board };
            },
            Some(action) => {
                let elapsed = elapsed_since(&start);
                if duration_gt(&elapsed, timeout) {
                    return GameOutcome::Success { num_moves, board };
                }
                num_moves = num_moves + 1;
                match board.apply(action) {
                    None => {
                        return GameOutcome::Failure { action, board };
                    },
                    Some(played) => {
                        board = played.with_random_tile();
                    },
                }
            },
        }
    }
    GameOutcome::Success { num_moves, board }
}

/// The number of successes among the outcomes.
pub open spec fn count_success(s: Seq<GameOutcome>) -> nat
    decreases s.len(),
{
    if s.len() == 0 {
        0
    } else {
        count_success(s.drop_last()) + (match s.last() {
            GameOutcome::Success { .. } => 1nat,
            GameOutcome::Failure { .. } => 0nat,
        })
    }
}

/// The number of failures among the outcomes.
pub open spec fn count_failure(s: Seq<GameOutcome>) -> nat
    decreases s.len(),
{
    if s.len() == 0 {
        0
    } else {
        count_failure(s.drop_last()) + (match s.last() {
            GameOutcome::Success { .. } => 0nat,
            GameOutcome::Failure { .. } => 1nat,
        })
    }
}

/// The summed move count of the successful outcomes.
pub open spec fn total_moves(s: Seq<GameOutcome>) -> int
    decreases s.len(),
{
    if s.len() == 0 {
        0
    } else {
        total_moves(s.drop_last()) + (match s.last() {
            GameOutcome::Success { num_moves, .. } => num_moves as int,
            GameOutcome::Failure { .. } => 0,
        })
    }
}

/// The number of successful outcomes whose terminal board holds a tile
/// of rank `r` or higher.
pub open spec fn count_reach(s: Seq<GameOutcome>, r: u8) -> nat
    decreases s.len(),
{
    if s.len() == 0 {
        0
    } else {
        count_reach(s.drop_last(), r) + (match s.last() {
            GameOutcome::Success { board, .. } => if grid_has_rank(board@, r) {
                1nat
            } else {
                0nat
            },
            GameOutcome::Failure { .. } => 0nat,
        })
    }
}

/// Every outcome is a success or a failure, so the two counts always
/// partition the batch: no game is lost silently.
pub proof fn lemma_outcome_partition(s: Seq<GameOutcome>)
    ensures
        count_success(s) + count_failure(s) == s.len(),
    decreases s.len(),
{
    if s.len() > 0 {
        lemma_outcome_partition(s.drop_last());
    }
}

proof fn lemma_count_success_le(s: Seq<GameOutcome>)
    ensures
        count_success(s) <= s.len(),
        count_failure(s) <= s.len(),
    decreases s.len(),
{
    if s.len() > 0 {
        lemma_count_success_le(s.drop_last());
    }
}

proof fn lemma_count_reach_le(s: Seq<GameOutcome>, r: u8)
    ensures
        count_reach(s, r) <= s.len(),
    decreases s.len(),
{
    if s.len() > 0 {
        lemma_count_reach_le(s.drop_last(), r);
    }
}

proof fn lemma_total_moves_le(s: Seq<GameOutcome>)
    ensures
        0 <= total_moves(s) <= s.len() * (u64::MAX as int),
    decreases s.len(),
{
    if s.len() > 0 {
        lemma_total_moves_le(s.drop_last());
        assert(s.len() * (u64::MAX as int) == (s.len() - 1) * (u64::MAX as int) + (
        u64::MAX as int)) by (nonlinear_arith);
    }
}

/// The read-only summary of a finished batch: per-rank reach counts for
/// ranks 3..=15, the success and failure counts, and the summed move
/// count of the successes. Derived quantities — reach percentages over
/// the number of games, and the mean move count over the successes —
/// follow from these by plain division.
pub struct AggregateReport {
    /// reach_counts[t] is the number of successes holding a tile of rank
    /// t + 3 or higher.
    pub reach_counts: [usize; 13],
    pub num_success: usize,
    pub num_failure: usize,
    pub total_moves: u128,
}

/// Summarizes a finished batch of outcomes. Computed once, after the
/// whole batch: successes and failures counted, move counts summed over
/// successes, and for each rank in [3, 15] the number of successes whose
/// terminal board reached that rank or higher.
pub fn aggregate(outcomes: &Vec<GameOutcome>) -> (r: AggregateReport)
    ensures
        r.num_success == count_success(outcomes@),
        r.num_failure == count_failure(outcomes@),
        r.total_moves == total_moves(outcomes@),
        forall|t: int| 0 <= t < 13 ==> r.reach_counts[t] == count_reach(outcomes@, (t + 3) as u8),
{
    let len = outcomes.len();
    let mut reach_counts: [usize; 13] = [0, 0, 0, 0, 0, 0, 0, 0, 0, 0, 0, 0, 0];
    let mut num_success: usize = 0;
    let mut num_failure: usize = 0;
    let mut total: u128 = 0;
    let mut i: usize = 0;
    proof {
        assert(outcomes@.take(0) =~= Seq::<GameOutcome>::empty());
    }
    while i < len
        invariant
            i <= len,
            len == outcomes@.len(),
            num_success == count_success(outcomes@.take(i as int)),
            num_failure == count_failure(outcomes@.take(i as int)),
            total == total_moves(outcomes@.take(i as int)),
            forall|t: int|
                0 <= t < 13 ==> reach_counts[t] == count_reach(outcomes@.take(i as int), (t
                    + 3) as u8),
        decreases len - i,
    {
        let ghost pre = outcomes@.take(i as int);
        proof {
            assert(outcomes@.take(i + 1).drop_last() =~= pre);
            assert(outcomes@.take(i + 1).last() == outcomes@[i as int]);
            lemma_count_success_le(pre);
            lemma_total_moves_le(pre);
            assert(len as int <= u64::MAX as int);
        }
        let oc = outcomes[i];
        match oc {
            GameOutcome::Success { num_moves, board } => {
                num_success = num_success + 1;
                proof {
                    assert(total_moves(pre) + (num_moves as int) <= u128::MAX as int)
                        by (nonlinear_arith)
                        requires
                            0 <= total_moves(pre) <= pre.len() * (u64::MAX as int),
                            pre.len() <= u64::MAX as int,
                            num_moves <= u64::MAX,
                    ;
                }
                total = total + (num_moves as u128);
                let mut t: usize = 0;
                while t < 13
                    invariant
                        t <= 13,
                        i < len,
                        len == outcomes@.len(),
                        outcomes@[i as int] == (GameOutcome::Success { num_moves, board }),
                        outcomes@.take(i + 1).drop_last() =~= outcomes@.take(i as int),
                        outcomes@.take(i + 1).last() == outcomes@[i as int],
                        forall|u: int|
                            0 <= u < t ==> reach_counts[u] == count_reach(
                                outcomes@.take(i + 1),
                                (u + 3) as u8,
                            ),
                        forall|u: int|
                            t <= u < 13 ==> reach_counts[u] == count_reach(
                                outcomes@.take(i as int),
                                (u + 3) as u8,
                            ),
                    decreases 13 - t,
                {
                    proof {
                        lemma_count_reach_le(outcomes@.take(i as int), (t + 3) as u8);
                    }
                    if board.has_at_least_tile((t as u8) + 3) {
                        reach_counts[t] = reach_counts[t] + 1;
                    }
                    t += 1;
                }
            },
            GameOutcome::Failure { .. } => {
                num_failure = num_failure + 1;
                proof {
                    assert forall|t: int| 0 <= t < 13 implies #[trigger] count_reach(
                        outcomes@.take(i + 1),
                        (t + 3) as u8,
                    ) == count_reach(outcomes@.take(i as int), (t + 3) as u8) by {}
                }
            },
        }
        i += 1;
    }
    proof {
        assert(outcomes@.take(len as int) =~= outcomes@);
    }
    AggregateReport { reach_counts, num_success, num_failure, total_moves: total }
}

} // verus!
