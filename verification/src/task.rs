//! The task record: a named item with a description, a due date, a category
//! and a completion status.

use vstd::prelude::*;

use crate::date::DateTime;

verus! {

/// A task. The name is the key under which the store holds it.
#[derive(Debug)]
pub struct Task {
    pub name: String,
    pub description: String,
    pub date: DateTime,
    pub category: String,
    pub status: bool,
}

/// The mathematical image of a task: its strings as character sequences.
pub struct TaskView {
    pub name: Seq<char>,
    pub description: Seq<char>,
    pub date: DateTime,
    pub category: Seq<char>,
    pub status: bool,
}

impl View for Task {
    type V = TaskView;

    open spec fn view(&self) -> TaskView {
        TaskView {
            name: self.name@,
            description: self.description@,
            date: self.date,
            category: self.category@,
            status: self.status,
        }
    }
}

impl Task {
    /// A field-for-field copy of the task.
    pub fn duplicate(&self) -> (r: Task)
        ensures
            r@ == self@,
    {
        Task {
            name: self.name.clone(),
            description: self.description.clone(),
            date: self.date,
            category: self.category.clone(),
            status: self.status,
        }
    }
}

} // verus!
