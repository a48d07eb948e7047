//! A small task manager library: tasks with a name, description, due date,
//! category and completion status, kept in a store keyed by name, and a
//! predicate mini-language (`field operator value` clauses joined by `and`)
//! for selecting tasks.

pub mod chars;
pub mod date;
pub mod predicate;
pub mod service;
pub mod task;

pub use date::DateTime;
