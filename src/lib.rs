//! Interior mutability between cooperative tasks that share one thread.
//!
//! A [`SharedCell`] hands out its value only for the length of a closure, so no
//! task can keep a live mutable view of it across a point where another task
//! gets its turn. A [`TaskGroup`] owns one cell and a set of [`Task`]s, and
//! lends the cell to each task in turn, scanning them round-robin.
mod shared_cell;
pub mod scheduling;
pub mod task_group;

pub use self::shared_cell::{CellExt, SharedCell};
pub use self::task_group::{Snapshot, Task, TaskGroup};
