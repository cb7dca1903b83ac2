use tdm::codec::serialize_tasks_database;
use tdm::id::gen_id;
use tdm::parse::deserialize_tasks_string;
use tdm::store::{append_task, get_default_tasks_database};
use tdm::task::{DbError, Status, Task, TasksDataBase};

fn sample_task(id: u64) -> Task {
    Task {
        name: "Test Task".to_string(),
        description: "Test Task Descritiption".to_string(),
        date_created: "1999-02-13".to_string(),
        date_due: "1999-03-20".to_string(),
        status: Status::Todo,
        repeats: true,
        repeats_every: "monday".to_string(),
        id,
    }
}

#[test]
fn test_deserialize_tasks_string() {
    let text = serialize_tasks_database(get_default_tasks_database());
    let result: TasksDataBase = deserialize_tasks_string(&text).unwrap();
    let welcome_task: Task = result.tasks[0].clone();
    assert_eq!(welcome_task.name, "Welcome!");
    assert_eq!(
        welcome_task.description,
        "You can create new tasks by hitting the key 'n'"
    );
    assert_eq!(welcome_task.date_created, "2021-08-10".to_string());
    assert_eq!(welcome_task.date_due, "2021-08-10".to_string());
    assert_eq!(welcome_task.status, Status::Todo);
    assert_eq!(welcome_task.repeats, false);
    assert_eq!(welcome_task.repeats_every, "".to_string());
}

#[test]
fn test_append_task_to_file() {
    let test_task: Task = sample_task(gen_id());
    let mut test_tasks_database = get_default_tasks_database();
    test_tasks_database.tasks.push(test_task.clone());
    let mut appended = get_default_tasks_database();
    append_task(&mut appended, test_task.clone());
    assert_eq!(
        serialize_tasks_database(test_tasks_database),
        serialize_tasks_database(appended)
    );
}

#[test]
fn append_then_load_keeps_last_element() {
    let task = sample_task(99);
    let mut db = get_default_tasks_database();
    append_task(&mut db, task.clone());
    let reloaded = deserialize_tasks_string(&serialize_tasks_database(db)).unwrap();
    let last = reloaded.tasks.last().unwrap();
    assert_eq!(last.name, task.name);
    assert_eq!(last.description, task.description);
    assert_eq!(last.date_created, task.date_created);
    assert_eq!(last.date_due, task.date_due);
    assert_eq!(last.status, task.status);
    assert_eq!(last.repeats, task.repeats);
    assert_eq!(last.repeats_every, task.repeats_every);
    assert_eq!(last.id, task.id);
}

#[test]
fn serialize_default_database_exact_text() {
    let expected = "---\ntasks:\n  - name: \"Welcome!\"\n    description: \"You can create new tasks by hitting the key 'n'\"\n    date_created: \"2021-08-10\"\n    date_due: \"2021-08-10\"\n    status: Todo\n    repeats: false\n    repeats_every: \"\"\n    id: 1\n";
    assert_eq!(serialize_tasks_database(get_default_tasks_database()), expected.to_string());
}

#[test]
fn serialize_escapes_special_characters_exact_text() {
    let mut task = sample_task(305441741);
    task.name = "a\"b\\c\nd".to_string();
    task.description = "".to_string();
    task.repeats = false;
    task.repeats_every = "".to_string();
    let db = TasksDataBase { tasks: vec![task] };
    let expected = "---\ntasks:\n  - name: \"a\\\"b\\\\c\\nd\"\n    description: \"\"\n    date_created: \"1999-02-13\"\n    date_due: \"1999-03-20\"\n    status: Todo\n    repeats: false\n    repeats_every: \"\"\n    id: 305441741\n";
    assert_eq!(serialize_tasks_database(db), expected.to_string());
}

#[test]
fn round_trip_with_special_characters() {
    let mut task = sample_task(u64::MAX);
    task.name = "quote \" backslash \\ line\nbreak".to_string();
    task.description = "ends with backslash \\".to_string();
    task.repeats_every = "\"\"".to_string();
    let mut db = get_default_tasks_database();
    db.tasks.push(task.clone());
    let reloaded = deserialize_tasks_string(&serialize_tasks_database(db)).unwrap();
    assert_eq!(reloaded.tasks.len(), 2);
    assert_eq!(reloaded.tasks[1].name, task.name);
    assert_eq!(reloaded.tasks[1].description, task.description);
    assert_eq!(reloaded.tasks[1].repeats_every, task.repeats_every);
    assert_eq!(reloaded.tasks[1].id, u64::MAX);
}

#[test]
fn round_trip_empty_collection() {
    let db = TasksDataBase { tasks: vec![] };
    let text = serialize_tasks_database(db);
    assert_eq!(text, "---\ntasks: []\n".to_string());
    let reloaded = deserialize_tasks_string(&text).unwrap();
    assert_eq!(reloaded.tasks.len(), 0);
}

#[test]
fn deserialize_rejects_malformed_text() {
    assert_eq!(
        deserialize_tasks_string("not a tasks file").unwrap_err(),
        DbError::FormatFailure
    );
}

#[test]
fn deserialize_rejects_trailing_text() {
    let mut text = serialize_tasks_database(get_default_tasks_database());
    text.push_str("extra");
    assert_eq!(deserialize_tasks_string(&text).unwrap_err(), DbError::FormatFailure);
}

#[test]
fn deserialize_rejects_truncated_record() {
    let text = serialize_tasks_database(get_default_tasks_database());
    let truncated = &text[..text.len() - 2];
    assert_eq!(deserialize_tasks_string(truncated).unwrap_err(), DbError::FormatFailure);
}

#[test]
fn empty_collection_matches_yaml_library_text() {
    let mut mapping = serde_yaml::Mapping::new();
    mapping.insert(
        serde_yaml::Value::String("tasks".to_string()),
        serde_yaml::Value::Sequence(vec![]),
    );
    let yaml_text = serde_yaml::to_string(&serde_yaml::Value::Mapping(mapping)).unwrap();
    let db = TasksDataBase { tasks: vec![] };
    assert_eq!(serialize_tasks_database(db), yaml_text);
}
