//! A random-access index over the locatable elements of a laid-out document,
//! with an ordered query algebra on top of it.
//!
//! The index is built once from finished page frames. Every element is
//! numbered in document order; all queries answer with elements in that
//! order and never report one element twice.

pub mod content;
pub mod frame;
pub mod geometry;
pub mod introspector;
pub mod laws;
pub mod order;
pub mod query;
pub mod selector;
pub mod store;

pub use crate::content::{Element, Label, Location, Numbering};
pub use crate::frame::{Frame, FrameItem, GroupItem, Meta};
pub use crate::geometry::{Point, Position, Transform};
pub use crate::introspector::{Introspector, LabelError};
pub use crate::selector::Selector;
