use tdm::codec::serialize_tasks_database;
use tdm::parse::deserialize_tasks_string;
use tdm::store::{
    change_task_date_due, change_task_name, change_task_repeats_every, get_default_task,
    get_default_tasks_database, remove_task, search_for_task_index, toggle_task_repeats,
    toggle_task_status,
};
use tdm::task::{DbError, Status, TasksDataBase};

#[test]
fn test_search_for_task_index() {
    let db = get_default_tasks_database();
    assert!(search_for_task_index(&db.tasks, 1).is_some());
}

#[test]
fn test_remove_task() {
    let mut db = get_default_tasks_database();
    remove_task(&mut db, 1).unwrap();
    assert_eq!(serialize_tasks_database(db), "---\ntasks: []\n".to_string());
}

#[test]
fn test_change_task_name() {
    let mut db = get_default_tasks_database();
    change_task_name(&mut db, 1, "NotWelcome".to_string()).unwrap();
    let reloaded = deserialize_tasks_string(&serialize_tasks_database(db)).unwrap();
    assert_eq!(reloaded.tasks[0].name, "NotWelcome".to_string());
}

#[test]
fn test_toggle_task_status() {
    let mut db = get_default_tasks_database();
    toggle_task_status(&mut db, 1).unwrap();
    let reloaded = deserialize_tasks_string(&serialize_tasks_database(db)).unwrap();
    assert_eq!(reloaded.tasks[0].status, Status::Done);
}

#[test]
fn test_change_task_date_due() {
    let new_date_due: String = "1999-10-19".to_string();
    let mut db = get_default_tasks_database();
    change_task_date_due(&mut db, 1, new_date_due.clone()).unwrap();
    let reloaded = deserialize_tasks_string(&serialize_tasks_database(db)).unwrap();
    assert_eq!(reloaded.tasks[0].date_due, new_date_due);
}

#[test]
fn test_toggle_task_repeats() {
    let mut db = get_default_tasks_database();
    toggle_task_repeats(&mut db, 1).unwrap();
    let reloaded = deserialize_tasks_string(&serialize_tasks_database(db)).unwrap();
    assert_eq!(reloaded.tasks[0].repeats, true);
}

#[test]
fn test_change_task_repeats_every() {
    let expected_day: String = "Mon".to_string();
    let mut db = get_default_tasks_database();
    change_task_repeats_every(&mut db, 1, expected_day.clone()).unwrap();
    let reloaded = deserialize_tasks_string(&serialize_tasks_database(db)).unwrap();
    assert_eq!(reloaded.tasks[0].repeats_every, expected_day);
}

#[test]
fn toggle_status_twice_restores() {
    let mut db = get_default_tasks_database();
    let before = serialize_tasks_database(db.clone());
    toggle_task_status(&mut db, 1).unwrap();
    toggle_task_status(&mut db, 1).unwrap();
    assert_eq!(serialize_tasks_database(db), before);
}

#[test]
fn toggle_repeats_twice_restores() {
    let mut db = get_default_tasks_database();
    let before = serialize_tasks_database(db.clone());
    toggle_task_repeats(&mut db, 1).unwrap();
    toggle_task_repeats(&mut db, 1).unwrap();
    assert_eq!(serialize_tasks_database(db), before);
}

#[test]
fn search_absent_id_returns_none() {
    let db = get_default_tasks_database();
    assert!(search_for_task_index(&db.tasks, 42).is_none());
}

#[test]
fn search_finds_unique_position() {
    let mut db = get_default_tasks_database();
    let mut second = get_default_task();
    second.id = 7;
    db.tasks.push(second);
    assert_eq!(search_for_task_index(&db.tasks, 7), Some(1));
}

#[test]
fn remove_absent_id_fails_with_task_not_found() {
    let mut db = get_default_tasks_database();
    assert_eq!(remove_task(&mut db, 42), Err(DbError::TaskNotFound));
    assert_eq!(db.tasks.len(), 1);
}

#[test]
fn fresh_database_holds_the_welcome_task() {
    let db: TasksDataBase = get_default_tasks_database();
    assert_eq!(db.tasks.len(), 1);
    assert_eq!(db.tasks[0].name, "Welcome!");
    assert_eq!(db.tasks[0].status, Status::Todo);
    assert_eq!(db.tasks[0].repeats, false);
    assert_eq!(db.tasks[0].repeats_every, "".to_string());
    assert_eq!(db.tasks[0].date_created, "2021-08-10".to_string());
    assert_eq!(db.tasks[0].date_due, "2021-08-10".to_string());
    assert_eq!(db.tasks[0].id, 1);
}
