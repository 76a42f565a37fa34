//! A rules-correct engine for the board game Go.
//!
//! The crate has two halves. The Go half models a 19x19 board with its
//! stones, groups, liberties, captures, suicide rule, positional superko
//! and erosion-based area scoring. The generic half is an append-only
//! action tree that reconstructs any recorded state by replaying actions,
//! which gives branching undo/redo without ever copying state eagerly.

pub mod board;
pub mod capture;
pub mod engine;
pub mod group;
pub mod player;
pub mod position;
pub mod rules;
pub mod score;
pub mod stone;

pub use board::Board19x19;
pub use engine::Game;
pub use engine::HistoryItem;
pub use engine::Path;
pub use group::Group;
pub use player::Player;
pub use position::Position19x19;
pub use stone::Stone;
