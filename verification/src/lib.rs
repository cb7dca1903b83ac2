//! A personal task-tracking data layer: an ordered collection of tasks
//! (name, description, dates, completion status, recurrence), persisted as a
//! single flat text file, with append, lookup, field mutation and removal by
//! identifier.
//!
//! The library holds the verified logic: the data model, the linear search,
//! the field mutations, the identifier generator, and the serializer and
//! parser for the persisted format, with a proven round-trip law. File
//! placement and the read-modify-write cycle around it are the caller's
//! concern.

use vstd::prelude::*;

pub mod codec;
pub mod files;
pub mod id;
pub mod parse;
pub mod store;
pub mod task;

verus! {

use crate::codec::{spec_parse, spec_serialize};
use crate::store::{spec_find_index, spec_remove};
use crate::task::{Id, TaskView};

/// Law: a task appended to a collection and loaded back through the
/// persisted form is still the collection's last element, field for field.
pub proof fn lemma_append_then_load(ts: Seq<TaskView>, t: TaskView)
    ensures
        spec_parse(spec_serialize(ts.push(t))) == Some(ts.push(t)),
        ts.push(t).last() == t,
{
    crate::parse::lemma_round_trip(ts.push(t));
}

/// Law: removing the sole remaining task yields a collection that serializes
/// to the canonical empty form.
pub proof fn lemma_remove_sole_task_serializes_empty(ts: Seq<TaskView>, id: Id)
    requires
        ts.len() == 1,
        ts[0].id == id,
    ensures
        spec_serialize(spec_remove(ts, id)) == "---\ntasks: []\n"@,
{
    assert(spec_find_index(ts, id) == Some(0int));
    assert(ts.remove(0) =~= Seq::<TaskView>::empty());
}

} // verus!
