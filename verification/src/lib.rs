//! A verified Othello (Reversi) board engine.
//!
//! The engine owns an 8x8 grid of cells and the player whose turn it is.
//! A move is adjudicated and applied by [`GameState::play`]: it is accepted
//! exactly when the target cell is empty and at least one of the eight
//! compass directions holds a contiguous run of opponent pieces bounded by
//! a piece of the moving player; all such runs are flipped at once.

mod othello;

pub use othello::GamePlayer;
pub use othello::GamePositionState;
pub use othello::GameState;
