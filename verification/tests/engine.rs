//! Behavioral tests of the Othello board engine, driven entirely through
//! its public interface: `new`, `play`, `snapshot` and `current_player`.

use othello::GamePlayer;
use othello::GamePositionState;
use othello::GameState;

/// Counts the occupied cells of a snapshot.
fn count_pieces(grid: &Vec<Vec<GamePositionState>>) -> usize {
    let mut n = 0;
    for row in grid {
        for cell in row {
            if *cell != GamePositionState::Empty {
                n += 1;
            }
        }
    }
    n
}

#[test]
fn initial_state() {
    let game = GameState::new();
    let grid = game.snapshot();
    assert_eq!(grid.len(), 8);
    for row in &grid {
        assert_eq!(row.len(), 8);
    }
    // grid is indexed [row][column]
    assert_eq!(grid[3][3], GamePositionState::White);
    assert_eq!(grid[3][4], GamePositionState::Black);
    assert_eq!(grid[4][3], GamePositionState::Black);
    assert_eq!(grid[4][4], GamePositionState::White);
    assert_eq!(count_pieces(&grid), 4);
    assert_eq!(game.current_player(), GamePlayer::Black);
}

#[test]
fn turn_discipline() {
    let mut game = GameState::new();
    let before = game.snapshot();
    // (2,3) is a valid capturing coordinate for Black, but White is not on turn
    assert!(!game.play(GamePlayer::White, 2, 3));
    assert_eq!(game.snapshot(), before);
    assert_eq!(game.current_player(), GamePlayer::Black);
}

#[test]
fn occupied_cell_rejected() {
    let mut game = GameState::new();
    let before = game.snapshot();
    for &(x, y) in &[(3, 3), (4, 3), (3, 4), (4, 4)] {
        assert!(!game.play(GamePlayer::Black, x, y));
    }
    assert_eq!(game.snapshot(), before);
    assert_eq!(game.current_player(), GamePlayer::Black);
}

#[test]
fn no_capture_rejected() {
    let mut game = GameState::new();
    let before = game.snapshot();
    // (2,2) is empty but no direction holds a bounded opponent run
    assert!(!game.play(GamePlayer::Black, 2, 2));
    assert_eq!(game.snapshot(), before);
    assert_eq!(game.current_player(), GamePlayer::Black);
}

#[test]
fn canonical_opening_move() {
    let mut game = GameState::new();
    assert!(game.play(GamePlayer::Black, 2, 3));
    let grid = game.snapshot();
    assert_eq!(grid[3][2], GamePositionState::Black); // the placed piece
    assert_eq!(grid[3][3], GamePositionState::Black); // flipped from White
    assert_eq!(grid[3][4], GamePositionState::Black); // untouched
    assert_eq!(grid[4][3], GamePositionState::Black); // untouched
    assert_eq!(grid[4][4], GamePositionState::White); // untouched
    assert_eq!(count_pieces(&grid), 5);
    assert_eq!(game.current_player(), GamePlayer::White);
}

#[test]
fn multi_direction_capture() {
    // Reach a position where Black at (2,5) captures in two directions at
    // once: rightward through (3,5) bounded by (4,5), and diagonally up-right
    // through (3,4) bounded by (4,3).
    let mut game = GameState::new();
    assert!(game.play(GamePlayer::Black, 4, 5)); // flips (4,4)
    assert!(game.play(GamePlayer::White, 3, 5)); // flips (3,4)
    let before = game.snapshot();
    assert_eq!(before[4][3], GamePositionState::White);
    assert_eq!(before[5][3], GamePositionState::White);

    assert!(game.play(GamePlayer::Black, 2, 5));
    let grid = game.snapshot();
    assert_eq!(grid[5][2], GamePositionState::Black); // the placed piece
    assert_eq!(grid[5][3], GamePositionState::Black); // flipped rightward
    assert_eq!(grid[4][3], GamePositionState::Black); // flipped diagonally
    assert_eq!(grid[3][3], GamePositionState::White); // beyond the runs
    assert_eq!(game.current_player(), GamePlayer::White);

    // One capturing direction alone already legalizes a move: White's reply
    // (3,5) above captures in exactly one direction (upward through (3,4))
    // and is accepted, flipping that one cell and no other.
    let mut single = GameState::new();
    assert!(single.play(GamePlayer::Black, 4, 5));
    assert!(single.play(GamePlayer::White, 3, 5));
    let g = single.snapshot();
    assert_eq!(g[5][3], GamePositionState::White); // placed
    assert_eq!(g[4][3], GamePositionState::White); // the one flipped cell
    assert_eq!(g[3][3], GamePositionState::White); // untouched bound
}

#[test]
fn boundary_moves_are_safe() {
    let mut game = GameState::new();
    let before = game.snapshot();
    // Edge and corner coordinates: directions pointing off the grid
    // contribute nothing, and nothing panics.
    for &(x, y) in &[(0, 0), (7, 0), (0, 7), (7, 7), (0, 3), (3, 0), (7, 3), (3, 7)] {
        assert!(!game.play(GamePlayer::Black, x, y));
    }
    assert_eq!(game.snapshot(), before);
    assert_eq!(game.current_player(), GamePlayer::Black);
}

#[test]
fn out_of_range_moves_are_rejected() {
    let mut game = GameState::new();
    let before = game.snapshot();
    for &(x, y) in &[(-1, 3), (3, -1), (8, 3), (3, 8), (100, 100), (-100, -100)] {
        assert!(!game.play(GamePlayer::Black, x, y));
    }
    assert_eq!(game.snapshot(), before);
    assert_eq!(game.current_player(), GamePlayer::Black);
}

#[test]
fn replay_is_deterministic() {
    let moves = [
        (GamePlayer::Black, 2, 3),
        (GamePlayer::Black, 2, 3), // rejected: not Black's turn anymore
        (GamePlayer::White, 2, 2),
        (GamePlayer::Black, 2, 1),
        (GamePlayer::White, 4, 2),
        (GamePlayer::Black, 0, 0), // rejected: no capture
        (GamePlayer::Black, 5, 2),
    ];
    let mut a = GameState::new();
    let mut b = GameState::new();
    for &(p, x, y) in &moves {
        let ra = a.play(p, x, y);
        let rb = b.play(p, x, y);
        assert_eq!(ra, rb);
        assert_eq!(a.snapshot(), b.snapshot());
        assert_eq!(a.current_player(), b.current_player());
    }
}

#[test]
fn flips_stop_at_empty_cell() {
    let mut game = GameState::new();
    assert!(game.play(GamePlayer::Black, 2, 3)); // flips (3,3)
    // White at (2,4): rightward run (3,4) is Black bounded by (4,4) White.
    assert!(game.play(GamePlayer::White, 2, 4));
    let grid = game.snapshot();
    assert_eq!(grid[4][2], GamePositionState::White); // placed
    assert_eq!(grid[4][3], GamePositionState::White); // flipped
    assert_eq!(grid[4][4], GamePositionState::White); // the bound
    // the unrelated Black pieces stand
    assert_eq!(grid[3][2], GamePositionState::Black);
    assert_eq!(grid[3][4], GamePositionState::Black);
}
