use merge_puzzle::board::{push_left, Action, Board};
use merge_puzzle::phase::{PlayableBoard, RandableBoard};

#[test]
fn test_push_left() {
    assert_eq!(push_left([0, 0, 0, 0]), [0, 0, 0, 0]);
    assert_eq!(push_left([0, 1, 0, 0]), [1, 0, 0, 0]);
    assert_eq!(push_left([0, 0, 1, 0]), [1, 0, 0, 0]);
    assert_eq!(push_left([0, 0, 0, 1]), [1, 0, 0, 0]);
    assert_eq!(push_left([0, 0, 0, 0]), [0, 0, 0, 0]);
    assert_eq!(push_left([1, 1, 0, 1]), [2, 1, 0, 0]);
    assert_eq!(push_left([0, 0, 1, 1]), [2, 0, 0, 0]);
    assert_eq!(push_left([0, 1, 0, 1]), [2, 0, 0, 0]);
    assert_eq!(push_left([1, 2, 0, 1]), [1, 2, 1, 0]);
}

#[test]
fn test_actions() {
    let board = Board {
        cells: [[1, 2, 1, 0], [4, 1, 0, 0], [3, 0, 0, 0], [0, 0, 0, 0]],
    };
    let target = Board {
        cells: [[0, 0, 0, 0], [1, 0, 0, 0], [4, 2, 0, 0], [3, 1, 1, 0]],
    };
    assert_eq!(board.apply(Action::Down), Some(target));
}

#[test]
fn push_left_merges_once_per_run() {
    assert_eq!(push_left([1, 1, 1, 0]), [2, 1, 0, 0]);
    assert_eq!(push_left([2, 2, 0, 0]), [3, 0, 0, 0]);
    assert_eq!(push_left([1, 1, 1, 1]), [2, 2, 0, 0]);
    assert_eq!(push_left([1, 1, 2, 2]), [2, 3, 0, 0]);
}

#[test]
fn push_left_never_adds_tiles() {
    let rows = [
        [0u8, 0, 0, 0],
        [1, 0, 1, 0],
        [1, 1, 1, 1],
        [1, 2, 3, 4],
        [2, 2, 2, 0],
    ];
    for row in rows {
        let before = row.iter().filter(|&&c| c != 0).count();
        let after = push_left(row).iter().filter(|&&c| c != 0).count();
        assert!(after <= before);
    }
}

#[test]
fn illegal_direction_returns_none_and_leaves_grid_alone() {
    // Every tile already sits at the top: Up changes nothing.
    let board = Board {
        cells: [[1, 2, 3, 4], [0, 0, 0, 0], [0, 0, 0, 0], [0, 0, 0, 0]],
    };
    assert_eq!(board.apply(Action::Up), None);
    // Every row is compact against the left wall with no merge: Left
    // changes nothing.
    let board2 = Board {
        cells: [[1, 2, 3, 4], [2, 1, 0, 0], [0, 0, 0, 0], [0, 0, 0, 0]],
    };
    assert_eq!(board2.apply(Action::Left), None);
    // The input board is an untouched value either way.
    assert_eq!(board.cells[0], [1, 2, 3, 4]);
}

#[test]
fn successors_enumerate_all_placements() {
    let board = Board {
        cells: [[1, 2, 0, 0], [0, 0, 0, 0], [0, 0, 0, 0], [0, 0, 0, 0]],
    };
    let e = board.num_empty();
    assert_eq!(e, 14);
    let succs = board.random_successors();
    assert_eq!(succs.len(), 2 * e);
    // Weights alternate 9, 1 over each empty cell in row-major order,
    // and the probabilities weight/(10 e) sum to exactly one.
    let mut weight_total: u64 = 0;
    let mut prob_total: f32 = 0.0;
    for (n, (w, succ)) in succs.iter().enumerate() {
        assert_eq!(*w, if n % 2 == 0 { 9 } else { 1 });
        weight_total += w;
        prob_total += (*w as f32) / (10.0 * e as f32);
        let placed = succ.num_empty();
        assert_eq!(placed, e - 1);
    }
    assert_eq!(weight_total, 10 * e as u64);
    assert!((prob_total - 1.0).abs() < 1e-5);
    // The first pair fills the first empty cell (row 0, column 2).
    assert_eq!(succs[0].1.cells[0][2], 1);
    assert_eq!(succs[1].1.cells[0][2], 2);
}

#[test]
fn phase_successors_match_board_successors() {
    let board = Board {
        cells: [[1, 0, 0, 0], [0, 2, 0, 0], [0, 0, 0, 0], [0, 0, 0, 0]],
    };
    let rb = RandableBoard::from_board(board);
    let raw = board.random_successors();
    let wrapped = rb.successors();
    assert_eq!(raw.len(), wrapped.len());
    for ((w1, b1), (w2, p2)) in raw.iter().zip(wrapped.iter()) {
        assert_eq!(w1, w2);
        assert_eq!(*b1, p2.board());
    }
}

#[test]
fn with_random_tile_fills_an_empty_cell() {
    // One empty cell left: the placement must land there, with rank 1 or 2.
    let board = Board {
        cells: [[0, 2, 3, 4], [5, 6, 7, 8], [1, 2, 3, 4], [5, 6, 7, 8]],
    };
    let rb = RandableBoard::from_board(board);
    let next = rb.with_random_tile();
    let placed = next.board().cells[0][0];
    assert!(placed == 1 || placed == 2);
    assert_eq!(next.board().num_empty(), 0);
}

#[test]
fn init_places_one_tile() {
    for _ in 0..20 {
        let b = PlayableBoard::init().board();
        let nonzero: Vec<u8> = b
            .cells
            .iter()
            .flat_map(|row| row.iter())
            .copied()
            .filter(|&c| c != 0)
            .collect();
        assert_eq!(nonzero.len(), 1);
        assert!(nonzero[0] == 1 || nonzero[0] == 2);
    }
}

#[test]
fn has_at_least_tile_checks_ranks() {
    let b = PlayableBoard::from_board(Board {
        cells: [[0, 0, 0, 0], [0, 5, 0, 0], [0, 0, 0, 0], [0, 0, 2, 0]],
    });
    assert!(b.has_at_least_tile(5));
    assert!(b.has_at_least_tile(3));
    assert!(!b.has_at_least_tile(6));
}
