//! A Go (board-game) position engine: a square board of intersections, the
//! stones placed on it, and the rules governing legal placement, group
//! connectivity, liberties, and capture.
//!
//! The board owns an occupancy map from in-bounds locations to stones.
//! Groups — maximal connected same-coloured sets of stones — are derived
//! from it by a flood-fill partition, liberties are computed against the
//! current occupancy, and `Board::play` resolves captures and suicide.
//! Every operation's behaviour is stated against a mathematical model of
//! the occupancy and proved.

pub mod accum;
pub mod board;
pub mod group;
pub mod location;
pub mod one;
pub mod stone;
pub mod text;
