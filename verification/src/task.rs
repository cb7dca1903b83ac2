//! The data model: a task, its completion status, and the stored collection.

use vstd::prelude::*;

verus! {

/// Completion status of a task: still to do, or done.
#[derive(Clone, Copy, Debug, PartialEq, Eq, Structural)]
pub enum Status {
    Done,
    Todo,
}

/// The status obtained by flipping Todo and Done.
pub open spec fn flipped(s: Status) -> Status {
    match s {
        Status::Done => Status::Todo,
        Status::Todo => Status::Done,
    }
}

impl Status {
    /// A status as a boolean: Done is true, Todo is false.
    pub fn as_boolean(status: Self) -> (r: bool)
        ensures
            r == (status is Done),
    {
        if Status::Done == status {
            true
        } else {
            false
        }
    }

    /// The status named by a boolean: true is Done, false is Todo.
    pub fn from_boolean(is_done: bool) -> (r: Status)
        ensures
            r == (if is_done {
                Status::Done
            } else {
                Status::Todo
            }),
    {
        if is_done {
            Status::Done
        } else {
            Status::Todo
        }
    }
}

/// Numeric task identifier: generated on creation, compared for lookup.
pub type Id = u64;

/// Mathematical model of a task: every text field as a sequence of
/// characters, the rest as plain values.
#[verifier::ext_equal]
pub ghost struct TaskView {
    pub name: Seq<char>,
    pub description: Seq<char>,
    pub date_created: Seq<char>,
    pub date_due: Seq<char>,
    pub status: Status,
    pub repeats: bool,
    pub repeats_every: Seq<char>,
    pub id: Id,
}

/// One task: what it is, when it was created and is due, whether it is done,
/// and whether (and on which weekday) it repeats.
#[derive(Clone, Debug)]
pub struct Task {
    pub name: String,
    pub description: String,
    pub date_created: String,
    pub date_due: String,
    pub status: Status,
    pub repeats: bool,
    pub repeats_every: String,
    pub id: Id,
}

impl View for Task {
    type V = TaskView;

    open spec fn view(&self) -> TaskView {
        TaskView {
            name: self.name@,
            description: self.description@,
            date_created: self.date_created@,
            date_due: self.date_due@,
            status: self.status,
            repeats: self.repeats,
            repeats_every: self.repeats_every@,
            id: self.id,
        }
    }
}

/// The stored collection: an ordered sequence of tasks, insertion order kept.
#[derive(Clone, Debug)]
pub struct TasksDataBase {
    pub tasks: Vec<Task>,
}

/// The views of a sequence of tasks, element by element.
pub open spec fn tasks_view(tasks: Seq<Task>) -> Seq<TaskView> {
    Seq::new(tasks.len(), |i: int| tasks[i]@)
}

impl View for TasksDataBase {
    type V = Seq<TaskView>;

    open spec fn view(&self) -> Seq<TaskView> {
        tasks_view(self.tasks@)
    }
}

/// An operation of the store that failed, and how.
#[derive(Clone, Copy, Debug, PartialEq, Eq, Structural)]
pub enum DbError {
    /// The backing file could not be read or written.
    StorageFailure,
    /// The backing file's contents do not parse into the stored shape.
    FormatFailure,
    /// No task in the collection carries the addressed identifier.
    TaskNotFound,
}

} // verus!
