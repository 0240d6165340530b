//! Finds the enemy bases on a capture of the map view and plans the clicks of
//! the artillery remote: few points such that every base lies within the
//! remote's reach of one of them.
//!
//! A capture is a [`visualization::VisualizedImage`]. [`legit`] detects the
//! targets on it by colour and [`debug`] by the game's debug markers; both
//! give rectangles of [`screen`]. [`sizing`] infers the size of one spawner
//! from them. [`generator`] plans the clicks, and [`pipeline`] puts the steps
//! together.

pub mod debug;
pub mod generator;
pub mod legit;
pub mod pipeline;
pub mod screen;
pub mod sizing;
pub mod visualization;
