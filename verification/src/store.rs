//! Operations on the stored collection: linear search by identifier, field
//! mutations, removal, append, and the seeded default content of a fresh
//! store. Every operation here is pure in-memory work; the caller loads the
//! collection before and persists it after.

use vstd::prelude::*;
use crate::task::{tasks_view, DbError, Id, Status, Task, TaskView, TasksDataBase};
use crate::task::flipped;

verus! {

/// The position of the first task carrying the identifier, if any.
pub open spec fn spec_find_index(ts: Seq<TaskView>, id: Id) -> Option<int>
    decreases ts.len(),
{
    if ts.len() == 0 {
        None
    } else if ts[0].id == id {
        Some(0int)
    } else {
        match spec_find_index(ts.drop_first(), id) {
            Some(i) => Some(i + 1),
            None => None,
        }
    }
}

/// What `spec_find_index` returns: the first matching position when one
/// exists, nothing when none does.
pub proof fn lemma_find_index_characterization(ts: Seq<TaskView>, id: Id)
    ensures
        match spec_find_index(ts, id) {
            Some(i) => 0 <= i < ts.len() && ts[i].id == id && (forall|k: int|
                0 <= k < i ==> ts[k].id != id),
            None => forall|k: int| 0 <= k < ts.len() ==> ts[k].id != id,
        },
    decreases ts.len(),
{
    if ts.len() == 0 {
    } else if ts[0].id == id {
    } else {
        let rest = ts.drop_first();
        lemma_find_index_characterization(rest, id);
        assert(forall|k: int| 0 <= k < rest.len() ==> rest[k] == ts[k + 1]);
        match spec_find_index(rest, id) {
            Some(i) => {
                assert(ts[i + 1].id == id);
                assert forall|k: int| 0 <= k < i + 1 implies ts[k].id != id by {
                    if k > 0 {
                        assert(rest[k - 1].id != id);
                    }
                }
            },
            None => {
                assert forall|k: int| 0 <= k < ts.len() implies ts[k].id != id by {
                    if k > 0 {
                        assert(rest[k - 1].id != id);
                    }
                }
            },
        }
    }
}

/// Converse direction: a first match at `i` forces `spec_find_index` to
/// return `i`.
pub proof fn lemma_find_index_at(ts: Seq<TaskView>, id: Id, i: int)
    requires
        0 <= i < ts.len(),
        ts[i].id == id,
        forall|k: int| 0 <= k < i ==> ts[k].id != id,
    ensures
        spec_find_index(ts, id) == Some(i),
    decreases ts.len(),
{
    if i == 0 {
    } else {
        assert(forall|k: int| 0 <= k < ts.drop_first().len() ==> ts.drop_first()[k] == ts[k + 1]);
        lemma_find_index_at(ts.drop_first(), id, i - 1);
    }
}

/// Converse direction: no match anywhere forces `spec_find_index` to return
/// nothing.
pub proof fn lemma_find_index_absent(ts: Seq<TaskView>, id: Id)
    requires
        forall|k: int| 0 <= k < ts.len() ==> ts[k].id != id,
    ensures
        spec_find_index(ts, id) is None,
{
    lemma_find_index_characterization(ts, id);
    if spec_find_index(ts, id) is Some {
        let i = spec_find_index(ts, id)->Some_0;
        assert(ts[i].id != id);
    }
}

/// Law: the search finds nothing for an identifier carried by no task, and
/// finds the one position for an identifier carried by exactly one.
pub proof fn lemma_find_index_law(ts: Seq<TaskView>, id: Id)
    ensures
        (forall|k: int| 0 <= k < ts.len() ==> ts[k].id != id) ==> spec_find_index(ts, id) is None,
        forall|i: int|
            (0 <= i < ts.len() && ts[i].id == id && (forall|k: int|
                0 <= k < ts.len() && k != i ==> ts[k].id != id)) ==> spec_find_index(ts, id)
                == Some(i),
{
    if forall|k: int| 0 <= k < ts.len() ==> ts[k].id != id {
        lemma_find_index_absent(ts, id);
    }
    assert forall|i: int|
        (0 <= i < ts.len() && ts[i].id == id && (forall|k: int|
            0 <= k < ts.len() && k != i ==> ts[k].id != id)) implies spec_find_index(ts, id)
        == Some(i) by {
        lemma_find_index_at(ts, id, i);
    }
}

/// Two collections of equal length whose tasks carry the same identifiers
/// position by position are searched alike.
pub proof fn lemma_find_index_same_ids(a: Seq<TaskView>, b: Seq<TaskView>, id: Id)
    requires
        a.len() == b.len(),
        forall|k: int| 0 <= k < a.len() ==> a[k].id == b[k].id,
    ensures
        spec_find_index(a, id) == spec_find_index(b, id),
    decreases a.len(),
{
    if a.len() == 0 {
    } else if a[0].id == id {
    } else {
        assert(forall|k: int| 0 <= k < a.drop_first().len() ==> a.drop_first()[k] == a[k + 1]);
        assert(forall|k: int| 0 <= k < b.drop_first().len() ==> b.drop_first()[k] == b[k + 1]);
        lemma_find_index_same_ids(a.drop_first(), b.drop_first(), id);
    }
}

/// Linear scan: the position of the first task whose identifier equals
/// `task_id`, or nothing when no task matches.
pub fn search_for_task_index(tasks: &Vec<Task>, task_id: Id) -> (r: Option<usize>)
    ensures
        match r {
            Some(i) => spec_find_index(tasks_view(tasks@), task_id) == Some(i as int),
            None => spec_find_index(tasks_view(tasks@), task_id) is None,
        },
{
    let ghost ts = tasks_view(tasks@);
    let mut index: usize = 0;
    while index < tasks.len()
        invariant
            0 <= index <= tasks.len(),
            ts == tasks_view(tasks@),
            ts.len() == tasks.len(),
            forall|k: int| 0 <= k < index ==> ts[k].id != task_id,
        decreases tasks.len() - index,
    {
        if tasks[index].id == task_id {
            proof {
                lemma_find_index_at(ts, task_id, index as int);
            }
            return Some(index);
        }
        index = index + 1;
    }
    proof {
        lemma_find_index_absent(ts, task_id);
    }
    None
}

/// The collection with the first task carrying `id` removed; unchanged when
/// none carries it.
pub open spec fn spec_remove(ts: Seq<TaskView>, id: Id) -> Seq<TaskView> {
    match spec_find_index(ts, id) {
        Some(i) => ts.remove(i),
        None => ts,
    }
}

/// The collection with the first task carrying `id` renamed; unchanged when
/// none carries it.
pub open spec fn spec_change_name(ts: Seq<TaskView>, id: Id, name: Seq<char>) -> Seq<TaskView> {
    match spec_find_index(ts, id) {
        Some(i) => ts.update(i, TaskView { name: name, ..ts[i] }),
        None => ts,
    }
}

/// The collection with the first task carrying `id` given a new due date.
pub open spec fn spec_change_date_due(ts: Seq<TaskView>, id: Id, date: Seq<char>) -> Seq<
    TaskView,
> {
    match spec_find_index(ts, id) {
        Some(i) => ts.update(i, TaskView { date_due: date, ..ts[i] }),
        None => ts,
    }
}

/// The collection with the first task carrying `id` given a new recurrence
/// weekday.
pub open spec fn spec_change_repeats_every(ts: Seq<TaskView>, id: Id, day: Seq<char>) -> Seq<
    TaskView,
> {
    match spec_find_index(ts, id) {
        Some(i) => ts.update(i, TaskView { repeats_every: day, ..ts[i] }),
        None => ts,
    }
}

/// The collection with the first task carrying `id` flipped between Todo and
/// Done.
pub open spec fn spec_toggle_status(ts: Seq<TaskView>, id: Id) -> Seq<TaskView> {
    match spec_find_index(ts, id) {
        Some(i) => ts.update(i, TaskView { status: flipped(ts[i].status), ..ts[i] }),
        None => ts,
    }
}

/// The collection with the first task carrying `id` flipped between
/// repeating and not.
pub open spec fn spec_toggle_repeats(ts: Seq<TaskView>, id: Id) -> Seq<TaskView> {
    match spec_find_index(ts, id) {
        Some(i) => ts.update(i, TaskView { repeats: !ts[i].repeats, ..ts[i] }),
        None => ts,
    }
}

/// Removes the first task carrying `task_id`; fails with `TaskNotFound`, and
/// leaves the collection unchanged, when no task carries it.
pub fn remove_task(db: &mut TasksDataBase, task_id: Id) -> (r: Result<(), DbError>)
    ensures
        final(db)@ == spec_remove(old(db)@, task_id),
        match r {
            Ok(_) => spec_find_index(old(db)@, task_id) is Some,
            Err(e) => spec_find_index(old(db)@, task_id) is None && e == DbError::TaskNotFound,
        },
{
    match search_for_task_index(&db.tasks, task_id) {
        Some(index) => {
            proof {
                lemma_find_index_characterization(db@, task_id);
            }
            db.tasks.remove(index);
            proof {
                assert(db@ =~= spec_remove(old(db)@, task_id));
            }
            Ok(())
        },
        None => Err(DbError::TaskNotFound),
    }
}

/// Replaces the name of the first task carrying `task_id`; fails with
/// `TaskNotFound`, and leaves the collection unchanged, when no task carries
/// it.
pub fn change_task_name(db: &mut TasksDataBase, task_id: Id, name: String) -> (r: Result<
    (),
    DbError,
>)
    ensures
        final(db)@ == spec_change_name(old(db)@, task_id, name@),
        match r {
            Ok(_) => spec_find_index(old(db)@, task_id) is Some,
            Err(e) => spec_find_index(old(db)@, task_id) is None && e == DbError::TaskNotFound,
        },
{
    match search_for_task_index(&db.tasks, task_id) {
        Some(index) => {
            proof {
                lemma_find_index_characterization(db@, task_id);
            }
            let task = db.tasks.remove(index);
            let changed = Task { name: name, ..task };
            db.tasks.insert(index, changed);
            proof {
                assert(db@ =~= spec_change_name(old(db)@, task_id, name@));
            }
            Ok(())
        },
        None => Err(DbError::TaskNotFound),
    }
}

/// Replaces the due date of the first task carrying `task_id`; fails with
/// `TaskNotFound`, and leaves the collection unchanged, when no task carries
/// it.
pub fn change_task_date_due(db: &mut TasksDataBase, task_id: Id, new_date: String) -> (r: Result<
    (),
    DbError,
>)
    ensures
        final(db)@ == spec_change_date_due(old(db)@, task_id, new_date@),
        match r {
            Ok(_) => spec_find_index(old(db)@, task_id) is Some,
            Err(e) => spec_find_index(old(db)@, task_id) is None && e == DbError::TaskNotFound,
        },
{
    match search_for_task_index(&db.tasks, task_id) {
        Some(index) => {
            proof {
                lemma_find_index_characterization(db@, task_id);
            }
            let task = db.tasks.remove(index);
            let changed = Task { date_due: new_date, ..task };
            db.tasks.insert(index, changed);
            proof {
                assert(db@ =~= spec_change_date_due(old(db)@, task_id, new_date@));
            }
            Ok(())
        },
        None => Err(DbError::TaskNotFound),
    }
}

/// Replaces the recurrence weekday of the first task carrying `task_id`;
/// fails with `TaskNotFound`, and leaves the collection unchanged, when no
/// task carries it.
pub fn change_task_repeats_every(db: &mut TasksDataBase, task_id: Id, new_weekday: String) -> (r:
    Result<(), DbError>)
    ensures
        final(db)@ == spec_change_repeats_every(old(db)@, task_id, new_weekday@),
        match r {
            Ok(_) => spec_find_index(old(db)@, task_id) is Some,
            Err(e) => spec_find_index(old(db)@, task_id) is None && e == DbError::TaskNotFound,
        },
{
    match search_for_task_index(&db.tasks, task_id) {
        Some(index) => {
            proof {
                lemma_find_index_characterization(db@, task_id);
            }
            let task = db.tasks.remove(index);
            let changed = Task { repeats_every: new_weekday, ..task };
            db.tasks.insert(index, changed);
            proof {
                assert(db@ =~= spec_change_repeats_every(old(db)@, task_id, new_weekday@));
            }
            Ok(())
        },
        None => Err(DbError::TaskNotFound),
    }
}

/// Flips the status of the first task carrying `task_id` between Todo and
/// Done; fails with `TaskNotFound`, and leaves the collection unchanged,
/// when no task carries it.
pub fn toggle_task_status(db: &mut TasksDataBase, task_id: Id) -> (r: Result<(), DbError>)
    ensures
        final(db)@ == spec_toggle_status(old(db)@, task_id),
        match r {
            Ok(_) => spec_find_index(old(db)@, task_id) is Some,
            Err(e) => spec_find_index(old(db)@, task_id) is None && e == DbError::TaskNotFound,
        },
{
    match search_for_task_index(&db.tasks, task_id) {
        Some(index) => {
            proof {
                lemma_find_index_characterization(db@, task_id);
            }
            let task = db.tasks.remove(index);
            let inverted = Status::from_boolean(!Status::as_boolean(task.status));
            let changed = Task { status: inverted, ..task };
            db.tasks.insert(index, changed);
            proof {
                assert(db@ =~= spec_toggle_status(old(db)@, task_id));
            }
            Ok(())
        },
        None => Err(DbError::TaskNotFound),
    }
}

/// Flips whether the first task carrying `task_id` repeats; fails with
/// `TaskNotFound`, and leaves the collection unchanged, when no task carries
/// it.
pub fn toggle_task_repeats(db: &mut TasksDataBase, task_id: Id) -> (r: Result<(), DbError>)
    ensures
        final(db)@ == spec_toggle_repeats(old(db)@, task_id),
        match r {
            Ok(_) => spec_find_index(old(db)@, task_id) is Some,
            Err(e) => spec_find_index(old(db)@, task_id) is None && e == DbError::TaskNotFound,
        },
{
    match search_for_task_index(&db.tasks, task_id) {
        Some(index) => {
            proof {
                lemma_find_index_characterization(db@, task_id);
            }
            let task = db.tasks.remove(index);
            let changed = Task { repeats: !task.repeats, ..task };
            db.tasks.insert(index, changed);
            proof {
                assert(db@ =~= spec_toggle_repeats(old(db)@, task_id));
            }
            Ok(())
        },
        None => Err(DbError::TaskNotFound),
    }
}

/// Appends a task at the end of the collection.
pub fn append_task(db: &mut TasksDataBase, task: Task) -> (r: ())
    ensures
        final(db)@ == old(db)@.push(task@),
{
    db.tasks.push(task);
    proof {
        assert(db@ =~= old(db)@.push(task@));
    }
}

/// Law: flipping a task's status twice returns the collection to its
/// original value.
pub proof fn lemma_toggle_status_involution(ts: Seq<TaskView>, id: Id)
    ensures
        spec_toggle_status(spec_toggle_status(ts, id), id) == ts,
{
    match spec_find_index(ts, id) {
        Some(i) => {
            lemma_find_index_characterization(ts, id);
            let ts2 = spec_toggle_status(ts, id);
            lemma_find_index_same_ids(ts, ts2, id);
            assert(spec_toggle_status(ts2, id) =~= ts);
        },
        None => {},
    }
}

/// Law: flipping whether a task repeats twice returns the collection to its
/// original value.
pub proof fn lemma_toggle_repeats_involution(ts: Seq<TaskView>, id: Id)
    ensures
        spec_toggle_repeats(spec_toggle_repeats(ts, id), id) == ts,
{
    match spec_find_index(ts, id) {
        Some(i) => {
            lemma_find_index_characterization(ts, id);
            let ts2 = spec_toggle_repeats(ts, id);
            lemma_find_index_same_ids(ts, ts2, id);
            assert(spec_toggle_repeats(ts2, id) =~= ts);
        },
        None => {},
    }
}

/// The seeded task of a fresh store: a fixed welcome task with identifier 1.
pub open spec fn default_task_view() -> TaskView {
    TaskView {
        name: "Welcome!"@,
        description: "You can create new tasks by hitting the key 'n'"@,
        date_created: "2021-08-10"@,
        date_due: "2021-08-10"@,
        status: Status::Todo,
        repeats: false,
        repeats_every: ""@,
        id: 1,
    }
}

/// The welcome task seeded into a fresh store.
pub fn get_default_task() -> (r: Task)
    ensures
        r@ == default_task_view(),
{
    let task = Task {
        name: "Welcome!".to_owned(),
        description: "You can create new tasks by hitting the key 'n'".to_owned(),
        date_created: "2021-08-10".to_owned(),
        date_due: "2021-08-10".to_owned(),
        status: Status::Todo,
        repeats: false,
        repeats_every: "".to_owned(),
        id: 1,
    };
    proof {
        assert(task@ =~= default_task_view());
    }
    task
}

/// The content of a freshly materialized store: exactly one task, the
/// welcome task.
pub fn get_default_tasks_database() -> (r: TasksDataBase)
    ensures
        r@ == seq![default_task_view()],
{
    let mut tasks: Vec<Task> = Vec::new();
    tasks.push(get_default_task());
    let db = TasksDataBase { tasks };
    proof {
        assert(db@ =~= seq![default_task_view()]);
    }
    db
}

} // verus!
