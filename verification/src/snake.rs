//! The snake itself: the chain of links and the bricks laid along it.
pub mod brick;
pub mod chain;
