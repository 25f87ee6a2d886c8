//! A constraint-propagation solver with backtracking for generalized 9×9
//! Sudoku puzzles: classic boards, irregular (nonomino) regions and
//! overlapping extra regions.
pub mod board;
pub mod candidates;
pub mod game;
pub mod game_state;
pub mod grid;
pub mod indexbitset;
pub mod placement;
pub mod prelude;
pub mod solver;
pub mod state;
pub mod steps;
pub mod valuebitset;
pub mod visitor;

pub use game::Game;
pub use game_state::GameState;
pub use indexbitset::IndexBitSet;
pub use placement::Placement;
pub use state::State;
pub use valuebitset::ValueBitSet;
