use tasktrack::model::Task;
use tasktrack::model::TaskStatus;
use tasktrack::model::TaskUpdate;
use tasktrack::model::ValidationError;
use tasktrack::store::TaskStore;

const NOW: i64 = 1_700_000_000_000;
const HOUR: i64 = 3_600_000;

#[test]
fn create_task_with_description() {
    let mut store = TaskStore::new();
    let name = "test_1";
    let description = Some("test 1 description");
    let dt = NOW;
    let task = store.create(name, description, Some(dt), NOW);
    let result = task.unwrap();
    assert_eq!(result.name.as_str(), name);
    assert_eq!(result.description.as_str(), description.unwrap());
}

#[test]
fn create_task_without_description() {
    let mut store = TaskStore::new();
    let name = "test_2";
    let description = None;
    let task = store.create(name, description, None, NOW);
    let result = task.unwrap();
    assert_eq!(result.description.as_str(), "");
}

#[test]
fn retrieve_by_name() {
    let mut store = TaskStore::new();
    let name = "test_3";
    let _task1 = store.create(name, None, None, NOW);
    let task = store.by_name(name, NOW);
    let result = task.unwrap();
    assert_eq!(result.name.as_str(), name);
    assert_eq!(result.description.as_str(), "");
}

#[test]
fn retrieve_by_id() {
    let mut store = TaskStore::new();
    let name = "test_4";
    let task_init = store.create(name, None, None, NOW).unwrap();
    let task = store.by_id(task_init.id.as_str(), NOW);
    let result = task.unwrap();
    assert_eq!(result.name.as_str(), name);
    assert_eq!(result.description.as_str(), "");
}

#[test]
fn retrieve_all() {
    let mut store = TaskStore::new();
    let name = "test_5";
    let _task_init = store.create(name, None, None, NOW).unwrap();
    let tasks = store.list(NOW);
    assert!(tasks.len() >= 1);
}

#[test]
fn do_update() {
    let mut store = TaskStore::new();
    let name = "test_6";
    let description = "test 6 description";
    let due = NOW - HOUR;
    let task_init = store.create(name, Some(description), Some(due), NOW).unwrap();
    let task = store.by_id(task_init.id.as_str(), NOW).unwrap();
    let update = TaskUpdate {
        id: task.id.clone(),
        name: "test_6_upd".to_string(),
        description: "test 6 description update.".to_owned(),
        due: Some(NOW + HOUR),
        status: TaskStatus::Created.to_store(),
        created_at: task_init.created_at,
        updated_at: task_init.updated_at,
    };
    assert_eq!(task.status, TaskStatus::Overdue.to_store());
    let result = store.update(update, NOW).unwrap();
    assert_eq!(result.name.as_str(), "test_6_upd");
    assert_eq!(result.description.as_str(), "test 6 description update.");
    assert_eq!(result.status, TaskStatus::Created.to_store());
}

#[test]
fn change_status() {
    let mut store = TaskStore::new();
    let task_init = store.create("test_7", None, None, NOW).unwrap();
    let result = store.set_status(&task_init.id, TaskStatus::Done.to_store()).unwrap();
    assert_eq!(result.status, TaskStatus::Done.to_store());
}

#[test]
fn test_delete() {
    let mut store = TaskStore::new();
    let task_1 = store.create("test_10", None, None, NOW).unwrap();
    let rows = store.delete_task(&task_1.id);
    assert_eq!(rows, Ok(1));
    let back = store.by_id(&task_1.id, NOW);
    assert!(back.is_none());
}

#[test]
fn test_overdue() {
    let due = NOW - HOUR;
    let mut store = TaskStore::new();
    let task_init = store.create("test_11", None, Some(due), NOW).unwrap();
    assert_eq!(task_init.status, TaskStatus::Overdue.to_store());
    let _rows = store.check_overdue(&task_init.id, NOW);
    let tsk = store.by_id(&task_init.id, NOW).unwrap();
    assert_eq!(tsk.status, TaskStatus::Overdue.to_store());
    let _ = store.delete_task(&task_init.id);
}

#[test]
fn test_text_filter() {
    let name_1 = "load";
    let name_2 = "hello";
    let name_3 = "hell";
    let desc_3 = "allowed";
    let name_4 = "world";
    let term = "lo";
    let mut store = TaskStore::new();
    let _task_2 = store.create(name_2, None, None, NOW);
    let _task_3 = store.create(name_3, Some(desc_3), None, NOW);
    let _task_4 = store.create(name_4, None, None, NOW);
    let _task_1 = store.create(name_1, None, None, NOW);
    let result = store.text_filter(term);
    assert_eq!(result.len(), 3);
}

#[test]
fn test_text_filter_text_and_status() {
    let mut store = TaskStore::new();
    let task5 = store.create("test_status_5", None, None, NOW).unwrap();
    let task1 = store.create("test_status_1", None, None, NOW).unwrap();
    store.set_status(&task1.id, TaskStatus::Done.to_store());
    let task2 = store.create("test_status_2", None, None, NOW).unwrap();
    store.set_status(&task2.id, TaskStatus::Done.to_store());
    let task3 = store.create("test_status_3", None, None, NOW).unwrap();
    store.set_status(&task3.id, TaskStatus::Deleted.to_store());
    let task4 = store.create("test_status_4", None, None, NOW).unwrap();
    store.set_status(&task4.id, TaskStatus::Deleted.to_store());

    let query = ":status:Done;Deleted";
    let result = store.filter(query, NOW).unwrap();
    assert!(result.len() > 0);
    assert!(!result.contains(&task5));
    let dones = result
        .clone()
        .into_iter()
        .filter(|t| t.status == TaskStatus::Done.to_store())
        .map(|t| t.id)
        .collect::<Vec<String>>();
    let deleteds = result
        .into_iter()
        .filter(|t| t.status == TaskStatus::Deleted.to_store())
        .map(|t| t.id)
        .collect::<Vec<String>>();
    assert!(dones.len() >= 2);
    assert!(deleteds.len() >= 2);
    assert!(dones.contains(&task1.id));
    assert!(dones.contains(&task2.id));
    assert!(deleteds.contains(&task3.id));
    assert!(deleteds.contains(&task4.id));
}

#[test]
fn create_twice_returns_same_record() {
    let mut store = TaskStore::new();
    let first = store.create("n1", Some("first description"), None, NOW).unwrap();
    let second = store.create("n1", Some("another description"), None, NOW).unwrap();
    assert_eq!(first.id, second.id);
    assert_eq!(second.description.as_str(), "first description");
    assert_eq!(first, second);
    assert_eq!(store.list(NOW).len(), 1);
}

#[test]
fn past_due_is_overdue_at_creation_and_fetch() {
    let mut store = TaskStore::new();
    let task = store.create("soon gone", None, Some(NOW - HOUR), NOW).unwrap();
    assert_eq!(task.status, TaskStatus::Overdue.to_store());
    let fetched = store.by_id(&task.id, NOW).unwrap();
    assert_eq!(fetched.status, TaskStatus::Overdue.to_store());
}

#[test]
fn future_due_update_resets_overdue_to_created() {
    let mut store = TaskStore::new();
    let task = store.create("late then saved", None, Some(NOW - HOUR), NOW).unwrap();
    assert_eq!(task.status, TaskStatus::Overdue.to_store());
    let update = TaskUpdate {
        id: task.id.clone(),
        name: task.name.clone(),
        description: task.description.clone(),
        due: Some(NOW + HOUR),
        status: TaskStatus::Overdue.to_store(),
        created_at: task.created_at,
        updated_at: task.updated_at,
    };
    let result = store.update(update, NOW).unwrap();
    assert_eq!(result.status, TaskStatus::Created.to_store());
    let fetched = store.by_id(&task.id, NOW).unwrap();
    assert_eq!(fetched.status, TaskStatus::Created.to_store());
}

#[test]
fn text_filter_ranks_by_ascending_distance() {
    let mut store = TaskStore::new();
    let _hello = store.create("hello", None, None, NOW);
    let _hell = store.create("hell", Some("allowed"), None, NOW);
    let _world = store.create("world", None, None, NOW);
    let _load = store.create("load", None, None, NOW);
    let result = store.text_filter("lo");
    let names: Vec<&str> = result.iter().map(|t| t.name.as_str()).collect();
    assert_eq!(names, vec!["load", "hello", "hell"]);
}

#[test]
fn hard_delete_and_soft_delete_differ() {
    let mut store = TaskStore::new();
    let kept = store.create("kept", None, None, NOW).unwrap();
    let soft = store.create("soft", None, None, NOW).unwrap();
    let hard = store.create("hard", None, None, NOW).unwrap();

    store.set_status(&soft.id, TaskStatus::Deleted.to_store()).unwrap();
    assert_eq!(store.delete_task(&hard.id), Ok(1));

    assert!(store.by_id(&hard.id, NOW).is_none());
    let soft_back = store.by_id(&soft.id, NOW).unwrap();
    assert_eq!(soft_back.status, TaskStatus::Deleted.to_store());

    let listed = store.list(NOW);
    assert_eq!(listed.len(), 1);
    assert_eq!(listed[0].id, kept.id);
}

#[test]
fn set_status_is_exempt_from_overdue_recomputation() {
    let mut store = TaskStore::new();
    let task = store.create("overdue then done", None, Some(NOW - HOUR), NOW).unwrap();
    assert_eq!(task.status, TaskStatus::Overdue.to_store());
    let done = store.set_status(&task.id, TaskStatus::Done.to_store()).unwrap();
    assert_eq!(done.status, TaskStatus::Done.to_store());
    let fetched = store.by_id(&task.id, NOW).unwrap();
    assert_eq!(fetched.status, TaskStatus::Done.to_store());
}

#[test]
fn lookups_on_missing_id_find_nothing() {
    let mut store = TaskStore::new();
    let _task = store.create("present", None, None, NOW).unwrap();
    assert!(store.by_id("no-such-id", NOW).is_none());
    assert!(store.set_status("no-such-id", TaskStatus::Done.to_store()).is_none());
    let update = TaskUpdate {
        id: "no-such-id".to_string(),
        name: "x".to_string(),
        description: "".to_string(),
        due: None,
        status: TaskStatus::Created.to_store(),
        created_at: 0,
        updated_at: 0,
    };
    assert!(store.update(update, NOW).is_none());
    assert_eq!(store.delete_task("no-such-id"), Ok(0));
}

#[test]
fn filter_rejects_bad_queries() {
    let mut store = TaskStore::new();
    let _task = store.create("present", None, None, NOW).unwrap();
    assert_eq!(store.filter("status", NOW), Err(ValidationError::MalformedFilter));
    assert_eq!(store.filter(":name:foo", NOW), Err(ValidationError::MalformedFilter));
    assert_eq!(store.filter(":status:Nope", NOW), Err(ValidationError::UnknownStatus));
}

#[test]
fn filter_by_status_selects_exactly_that_code() {
    let mut store = TaskStore::new();
    let a = store.create("a", None, None, NOW).unwrap();
    let b = store.create("b", None, None, NOW).unwrap();
    store.set_status(&b.id, TaskStatus::Done.to_store()).unwrap();
    let created = store.filter_by_status(TaskStatus::Created.to_store(), NOW);
    assert_eq!(created.len(), 1);
    assert_eq!(created[0].id, a.id);
    let done = store.filter_by_status(TaskStatus::Done.to_store(), NOW);
    assert_eq!(done.len(), 1);
    assert_eq!(done[0].id, b.id);
}

#[test]
fn sweep_counts_rewritable_rows() {
    let mut store = TaskStore::new();
    let no_due = store.create("no deadline", None, None, NOW).unwrap();
    let late = store.create("late", None, Some(NOW - HOUR), NOW).unwrap();
    assert_eq!(store.check_overdue(&no_due.id, NOW), Ok(0));
    assert_eq!(store.check_overdue(&late.id, NOW), Ok(1));
    store.set_status(&late.id, TaskStatus::Done.to_store()).unwrap();
    assert_eq!(store.check_overdue(&late.id, NOW), Ok(0));
}

#[test]
fn observation_without_reconciliation_shows_stored_status() {
    let mut store = TaskStore::new();
    let task = store.create("quiet lookup", None, Some(NOW + HOUR), NOW).unwrap();
    assert_eq!(task.status, TaskStatus::Created.to_store());
    let later = NOW + 3 * HOUR;
    let peeked = store.peek_by_id(&task.id).unwrap();
    assert_eq!(peeked.status, TaskStatus::Created.to_store());
    let observed = store.by_id(&task.id, later).unwrap();
    assert_eq!(observed.status, TaskStatus::Overdue.to_store());
    let peeked_again = store.peek_by_id(&task.id).unwrap();
    assert_eq!(peeked_again.status, TaskStatus::Overdue.to_store());
}

#[test]
fn listings_order_by_due_then_status() {
    let mut store = TaskStore::new();
    let b = store.create("due later", None, Some(NOW + 2 * HOUR), NOW).unwrap();
    let none1 = store.create("no due still open", None, None, NOW).unwrap();
    let a = store.create("due sooner", None, Some(NOW + HOUR), NOW).unwrap();
    let none2 = store.create("no due but done", None, None, NOW).unwrap();
    store.set_status(&none2.id, TaskStatus::Done.to_store()).unwrap();
    let listed = store.list(NOW);
    let ids: Vec<&str> = listed.iter().map(|t| t.id.as_str()).collect();
    assert_eq!(
        ids,
        vec![a.id.as_str(), b.id.as_str(), none1.id.as_str(), none2.id.as_str()]
    );
}

#[test]
fn status_codes_round_trip() {
    let all = [
        TaskStatus::Overdue,
        TaskStatus::Created,
        TaskStatus::Done,
        TaskStatus::Deleted,
    ];
    let codes = [0, 1, 2, 3];
    for i in 0..4 {
        assert_eq!(all[i].to_store(), codes[i]);
        assert_eq!(TaskStatus::from_store(codes[i]).to_store(), codes[i]);
    }
}

#[test]
fn new_task_has_fresh_id_and_fields() {
    let t = Task::new("a name", Some("a description"), Some(5));
    assert_eq!(t.name.as_str(), "a name");
    assert_eq!(t.description.as_str(), "a description");
    assert_eq!(t.status, TaskStatus::Created.to_store());
    assert_eq!(t.due, Some(5));
    assert_eq!(t.created_at, t.updated_at);
    assert_eq!(t.id.chars().count(), 36);
    let u = Task::new("a name", None, None);
    assert_ne!(t.id, u.id);
}
