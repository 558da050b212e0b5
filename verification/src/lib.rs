//! A small task tracker: a store that assigns unique, strictly increasing
//! identifiers, lists tasks in identifier order, and renders itself as a
//! canonical text document that parses back to exactly the same tasks.

pub mod clock;
pub mod codec;
pub mod store;
pub mod task;
