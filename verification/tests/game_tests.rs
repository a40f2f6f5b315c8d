use std::time::Duration;

use merge_puzzle::board::{Action, Board};
use merge_puzzle::eval::eval;
use merge_puzzle::game::{aggregate, play, play_with, GameOutcome, RandomSelector, Selector};
use merge_puzzle::phase::{PlayableBoard, RandableBoard};
use merge_puzzle::search::{
    select_action, select_action_expectimax, select_action_greedily, select_action_randomly,
};

#[test]
fn eval_of_empty_grid() {
    // Each of the eight lines scores 200_000_000 + 4 * 270_000.
    let b = Board {
        cells: [[0, 0, 0, 0], [0, 0, 0, 0], [0, 0, 0, 0], [0, 0, 0, 0]],
    };
    assert_eq!(eval(&b), 1_608_640_000);
}

#[test]
fn eval_of_single_tile() {
    // The row and the column holding the tile each score
    // 200_000_000 + 3 * 270_000 - 11 * 1_000; the six others score
    // 200_000_000 + 4 * 270_000.
    let b = Board {
        cells: [[1, 0, 0, 0], [0, 0, 0, 0], [0, 0, 0, 0], [0, 0, 0, 0]],
    };
    assert_eq!(eval(&b), 2 * 200_799_000 + 6 * 201_080_000);
}

#[test]
fn eval_is_transpose_symmetric() {
    let grids = [
        [[1, 2, 3, 4], [0, 0, 5, 0], [0, 9, 0, 0], [2, 0, 0, 7]],
        [[0, 0, 0, 0], [0, 0, 0, 0], [0, 0, 0, 0], [0, 0, 0, 1]],
        [[11, 2, 1, 1], [3, 3, 0, 0], [1, 0, 1, 0], [0, 2, 2, 2]],
    ];
    for cells in grids {
        let b = Board { cells };
        assert_eq!(eval(&b), eval(&b.transposed()));
    }
}

#[test]
fn random_selector_only_returns_legal_actions() {
    let board = PlayableBoard::from_board(Board {
        cells: [[1, 2, 3, 4], [0, 0, 0, 0], [0, 0, 0, 0], [0, 0, 0, 0]],
    });
    for _ in 0..50 {
        let a = select_action_randomly(board).expect("some action is legal");
        // Up is the one illegal action on this board.
        assert_ne!(a, Action::Up);
        assert!(board.apply(a).is_some());
    }
}

#[test]
fn selectors_return_none_on_terminal_board() {
    // A full checkerboard: no empty cell, no adjacent equal pair.
    let terminal = PlayableBoard::from_board(Board {
        cells: [[1, 2, 1, 2], [2, 1, 2, 1], [1, 2, 1, 2], [2, 1, 2, 1]],
    });
    assert_eq!(select_action(terminal), None);
    assert_eq!(select_action_randomly(terminal), None);
    assert_eq!(select_action_greedily(terminal), None);
    assert_eq!(select_action_expectimax(terminal, 2), None);
}

#[test]
fn greedy_maximizes_the_evaluator() {
    let board = PlayableBoard::from_board(Board {
        cells: [[1, 1, 0, 0], [0, 0, 0, 0], [0, 0, 0, 0], [0, 0, 0, 0]],
    });
    let chosen = select_action_greedily(board).expect("some action is legal");
    let chosen_score = eval(&board.apply(chosen).unwrap().board());
    for a in [Action::Up, Action::Down, Action::Left, Action::Right] {
        if let Some(rb) = board.apply(a) {
            assert!(eval(&rb.board()) <= chosen_score);
        }
    }
}

#[test]
fn expectimax_returns_a_legal_action() {
    let board = PlayableBoard::from_board(Board {
        cells: [[1, 1, 0, 0], [0, 2, 0, 0], [0, 0, 0, 0], [0, 0, 0, 0]],
    });
    let a = select_action_expectimax(board, 2).expect("some action is legal");
    assert!(board.apply(a).is_some());
}

#[test]
fn full_game_with_random_strategy_succeeds() {
    let outcome = play(&Duration::from_secs(600));
    match outcome {
        GameOutcome::Success { num_moves, board } => {
            // The game ended at a terminal board with a nonnegative
            // move count and some tile on the board.
            assert!(num_moves < u64::MAX);
            assert!(board.has_at_least_tile(1));
        }
        GameOutcome::Failure { .. } => panic!("the random selector never picks an illegal action"),
    }
}

struct StubSelector {
    action: Action,
}

impl Selector for StubSelector {
    fn select(&mut self, _board: &PlayableBoard) -> Option<Action> {
        Some(self.action)
    }
}

#[test]
fn out_of_contract_selector_yields_one_failure() {
    let mut selector = StubSelector { action: Action::Up };
    let outcome = play_with(&mut selector, &Duration::from_secs(600));
    match outcome {
        GameOutcome::Success { .. } => panic!("a stub that never stops cannot succeed"),
        GameOutcome::Failure { action, board } => {
            assert_eq!(action, Action::Up);
            assert_eq!(board.apply(Action::Up), None);
        }
    }
    let report = aggregate(&vec![outcome]);
    assert_eq!(report.num_failure, 1);
    assert_eq!(report.num_success, 0);
}

#[test]
fn aggregate_matches_hand_computed_values() {
    let g1 = PlayableBoard::from_board(Board {
        cells: [[5, 3, 0, 0], [0, 0, 0, 0], [0, 0, 0, 0], [0, 0, 0, 0]],
    });
    let g2 = PlayableBoard::from_board(Board {
        cells: [[7, 1, 0, 0], [0, 2, 0, 0], [0, 0, 0, 0], [0, 0, 0, 0]],
    });
    let g3 = PlayableBoard::from_board(Board {
        cells: [[2, 0, 0, 0], [0, 0, 0, 0], [0, 0, 0, 0], [0, 0, 0, 0]],
    });
    let outcomes = vec![
        GameOutcome::Success { num_moves: 10, board: g1 },
        GameOutcome::Success { num_moves: 20, board: g2 },
        GameOutcome::Success { num_moves: 31, board: g3 },
        GameOutcome::Failure { action: Action::Left, board: g3 },
    ];
    let report = aggregate(&outcomes);
    assert_eq!(report.num_success, 3);
    assert_eq!(report.num_failure, 1);
    assert_eq!(report.total_moves, 61);
    // Rank 3 or higher: g1 (rank 5) and g2 (rank 7). Rank 5: both.
    // Rank 6 and 7: only g2. Rank 8 and up: none.
    assert_eq!(report.reach_counts[0], 2);
    assert_eq!(report.reach_counts[1], 2);
    assert_eq!(report.reach_counts[2], 2);
    assert_eq!(report.reach_counts[3], 1);
    assert_eq!(report.reach_counts[4], 1);
    for t in 5..13 {
        assert_eq!(report.reach_counts[t], 0);
    }
    // The derived statistics of the report, as the harness prints them.
    let mean = report.total_moves as f32 / report.num_success as f32;
    assert!((mean - 61.0 / 3.0).abs() < 1e-4);
    let num_games = outcomes.len();
    let pct_rank3 = report.reach_counts[0] as f32 / num_games as f32 * 100.0;
    assert!((pct_rank3 - 50.0).abs() < 1e-4);
}

#[test]
fn pluggable_random_selector_plays_a_full_game() {
    let mut selector = RandomSelector {};
    let outcome = play_with(&mut selector, &Duration::from_secs(600));
    assert!(matches!(outcome, GameOutcome::Success { .. }));
}

#[test]
fn evaluate_on_phase_board_matches_eval() {
    let b = Board {
        cells: [[1, 2, 3, 4], [0, 0, 5, 0], [0, 9, 0, 0], [2, 0, 0, 7]],
    };
    assert_eq!(RandableBoard::from_board(b).evaluate(), eval(&b));
}

#[test]
fn greedy_breaks_ties_toward_the_earlier_action() {
    let board = PlayableBoard::from_board(Board {
        cells: [[0, 0, 0, 0], [0, 1, 1, 0], [0, 0, 0, 0], [0, 0, 0, 0]],
    });
    let chosen = select_action_greedily(board).expect("some action is legal");
    // Recompute the selection: highest successor score, first action of
    // the fixed order Up, Down, Left, Right on a tie.
    let mut expected: Option<(Action, i64)> = None;
    for a in [Action::Up, Action::Down, Action::Left, Action::Right] {
        if let Some(rb) = board.apply(a) {
            let v = eval(&rb.board());
            expected = match expected {
                None => Some((a, v)),
                Some((ba, bv)) => {
                    if v > bv {
                        Some((a, v))
                    } else {
                        Some((ba, bv))
                    }
                }
            };
        }
    }
    assert_eq!(chosen, expected.unwrap().0);
}

#[test]
fn expectimax_depth_one_matches_recomputed_averages() {
    let board = PlayableBoard::from_board(Board {
        cells: [[1, 1, 2, 0], [0, 2, 0, 0], [3, 0, 0, 0], [0, 0, 0, 0]],
    });
    let chosen = select_action_expectimax(board, 1).expect("some action is legal");
    // With one action layer of budget, an action's value is the
    // weighted average of the shifted evaluator scores of all the
    // chance placements of the board it yields.
    let offset: i128 = 200_000_000_000;
    let value_of = |a: Action| -> Option<i128> {
        board.apply(a).map(|rb| {
            let e = rb.num_empty() as i128;
            let mut acc: i128 = 0;
            for (w, succ) in rb.successors() {
                acc += (w as i128) * (eval(&succ.board()) as i128 + offset);
            }
            acc / (10 * e)
        })
    };
    let chosen_value = value_of(chosen).unwrap();
    let mut first_best: Option<(Action, i128)> = None;
    for a in [Action::Up, Action::Down, Action::Left, Action::Right] {
        if let Some(v) = value_of(a) {
            assert!(v <= chosen_value);
            first_best = match first_best {
                None => Some((a, v)),
                Some((ba, bv)) => {
                    if v > bv {
                        Some((a, v))
                    } else {
                        Some((ba, bv))
                    }
                }
            };
        }
    }
    assert_eq!(chosen, first_best.unwrap().0);
}
