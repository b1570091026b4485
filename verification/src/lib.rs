//! Enumeration of the ways a set of pieces can tile a ten-column playing field.
//!
//! The field is a bitboard. A search state is a partly filled board together
//! with the pieces that are still available; the search always fills the
//! lowest empty cell of the leftmost column that still has one, so every
//! tiling is reached along exactly one path. A tiling is only reported when
//! its placements can be dropped in some order without one of them resting on
//! nothing but placements that come after it.
//!
//! The shapes of the pieces and the rule that decides whether a piece can land
//! are supplied by the caller: see [`Geometry`] and [`Placeability`].
//!
//! What the search finds is the specification function
//! [`combination::tilings`]. The modules [`tiling`] and [`realizable`] state
//! what that means: every tiling found fills the field exactly with the
//! pieces at hand and can be built.

pub mod board;
pub mod combination;
pub mod consumer;
pub mod cycle;
pub mod generate;
pub mod geometry;
pub mod parallel;
pub mod piece;
pub mod placeability;
pub mod realizable;
pub mod tiling;

pub use board::{BitBoard, MAX_HEIGHT, WIDTH};
pub use combination::{find_combinations, find_combos_st};
pub use consumer::{Collector, ComboConsumer, FnConsumer, LimitedCollector, SearchStatus};
pub use cycle::has_cyclic_dependency;
pub use generate::{find_combos, Candidate};
pub use geometry::{ConfigError, Geometry};
pub use parallel::{
    find_combinations_mt, find_combinations_spread, find_combos_mt, Expansion, SearchTask,
    FANOUT_DEPTH,
};
pub use piece::{Piece, PieceSet, PieceState, Placement};
pub use placeability::{Always, FnRule, Placeability};
