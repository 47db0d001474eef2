//! A personal task list kept as a flat text file, one task per line.
//!
//! The library holds the list logic: reading the file text into tasks,
//! rendering tasks back into file text, and the edits (add, remove, mark,
//! unmark, sort, reset). Reading and writing the file is left to the caller.
pub mod mark;
pub mod order;
pub mod text;
pub mod todo;

pub use todo::{TodoError, TodoList};
