//! Monte-Carlo Tree Search with the UCT selection rule for a 3x3
//! tic-tac-toe board.
//!
//! The crate is organised bottom-up: `defines` holds the cell marks,
//! game scores and the winning-line tables; `board` is the mutable game
//! state with exact apply/undo semantics; `math` provides the verified
//! fixed-point arithmetic behind the UCT score; `node` is the
//! arena-allocated search tree; `uct` runs the four-phase search loop.

pub mod board;
pub mod defines;
pub mod math;
pub mod node;
pub mod uct;
