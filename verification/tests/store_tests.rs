use todo_list::store::{TodoError, TodoList};

#[test]
fn test_add_task() {
    let mut todo = TodoList::new(None).unwrap();

    todo.add_task("Test task".to_string());

    let tasks = todo.list_tasks();
    assert_eq!(tasks.len(), 1);
    assert_eq!(tasks[0].description, "Test task");
    assert!(!tasks[0].completed);
}

#[test]
fn test_complete_task() {
    let mut todo = TodoList::new(None).unwrap();

    todo.add_task("Test task".to_string());
    let success = todo.complete_task(1);

    assert!(success);
    let tasks = todo.list_tasks();
    assert!(tasks[0].completed);

    let success = todo.complete_task(999);
    assert!(!success);
}

#[test]
fn test_delete_task() {
    let mut todo = TodoList::new(None).unwrap();

    todo.add_task("Test task".to_string());
    let success = todo.delete_task(1);

    assert!(success);
    assert!(todo.list_tasks().is_empty());

    let success = todo.delete_task(1);
    assert!(!success);
}

#[test]
fn test_persistence() {
    // The backing location is modelled by the saved document: mutate a store,
    // render it, and build a fresh store from the rendering. The library's
    // mutators change memory only; a caller whose write of the document fails
    // must discard the in-memory store instead of reporting success.
    let saved: String;
    {
        let mut todo = TodoList::new(None).unwrap();
        todo.add_task("Task 1".to_string());
        todo.add_task("Task 2".to_string());
        todo.complete_task(1);
        saved = todo.to_document();
    }

    let todo = TodoList::new(Some(saved.as_str())).unwrap();
    let tasks = todo.list_tasks();

    assert_eq!(tasks.len(), 2);
    assert_eq!(tasks[0].description, "Task 1");
    assert!(tasks[0].completed);
    assert_eq!(tasks[1].description, "Task 2");
    assert!(!tasks[1].completed);
}

#[test]
fn test_task_ordering() {
    let mut todo = TodoList::new(None).unwrap();

    todo.add_task("Task 2".to_string());
    todo.add_task("Task 1".to_string());

    let tasks = todo.list_tasks();
    assert_eq!(tasks[0].id, 1);
    assert_eq!(tasks[1].id, 2);
}

#[test]
fn test_full_scenario() {
    let mut todo = TodoList::new(None).unwrap();

    let t1 = todo.add_task("buy milk".to_string());
    assert_eq!(t1.id, 1);
    assert!(!t1.completed);

    let t2 = todo.add_task("walk dog".to_string());
    assert_eq!(t2.id, 2);

    assert!(todo.complete_task(1));
    let tasks = todo.list_tasks();
    assert_eq!(tasks.len(), 2);
    assert_eq!(tasks[0].id, 1);
    assert!(tasks[0].completed);
    assert_eq!(tasks[0].description, "buy milk");
    assert_eq!(tasks[1].id, 2);
    assert!(!tasks[1].completed);
    assert_eq!(tasks[1].description, "walk dog");

    assert!(todo.delete_task(1));
    let tasks = todo.list_tasks();
    assert_eq!(tasks.len(), 1);
    assert_eq!(tasks[0].id, 2);

    assert!(!todo.delete_task(1));
}

#[test]
fn test_document_of_empty_store() {
    let todo = TodoList::new(None).unwrap();
    assert_eq!(todo.to_document(), "[]");
}

#[test]
fn test_document_exact() {
    let mut todo = TodoList::new(None).unwrap();
    todo.add_task_at("buy milk".to_string(), 1700000000);
    let doc = todo.to_document();
    assert_eq!(
        doc,
        "[{\"id\":1,\"description\":\"buy milk\",\"completed\":false,\"created_at\":1700000000}]"
    );
}

#[test]
fn test_escaping_round_trip() {
    let mut todo = TodoList::new(None).unwrap();
    todo.add_task_at("say \"hi\" \\ done".to_string(), 7);
    let doc = todo.to_document();

    let again = TodoList::new(Some(doc.as_str())).unwrap();
    let tasks = again.list_tasks();
    assert_eq!(tasks.len(), 1);
    assert_eq!(tasks[0].description, "say \"hi\" \\ done");
    assert_eq!(tasks[0].created_at, 7);
    assert!(!tasks[0].completed);
}

#[test]
fn test_empty_contents_starts_empty() {
    let todo = TodoList::new(Some("")).unwrap();
    assert!(todo.list_tasks().is_empty());
}

#[test]
fn test_missing_contents_counts_from_one() {
    let mut todo = TodoList::new(None).unwrap();
    let t = todo.add_task("first".to_string());
    assert_eq!(t.id, 1);
}

#[test]
fn test_corrupt_document() {
    assert!(matches!(
        TodoList::new(Some("not a document")),
        Err(TodoError::DataCorruption)
    ));
    assert!(matches!(TodoList::new(Some("[")), Err(TodoError::DataCorruption)));
    assert!(matches!(TodoList::new(Some("[]x")), Err(TodoError::DataCorruption)));
    // The store never assigns identifier zero, so no document carries it.
    assert!(matches!(
        TodoList::new(Some(
            "[{\"id\":0,\"description\":\"a\",\"completed\":false,\"created_at\":0}]"
        )),
        Err(TodoError::DataCorruption)
    ));
    // Identifiers must strictly ascend along the document.
    assert!(matches!(
        TodoList::new(Some(
            "[{\"id\":2,\"description\":\"a\",\"completed\":false,\"created_at\":0},{\"id\":1,\"description\":\"b\",\"completed\":false,\"created_at\":0}]"
        )),
        Err(TodoError::DataCorruption)
    ));
    // Numbers are canonical: no leading zeros.
    assert!(matches!(
        TodoList::new(Some(
            "[{\"id\":01,\"description\":\"a\",\"completed\":false,\"created_at\":0}]"
        )),
        Err(TodoError::DataCorruption)
    ));
    // A truncated record is corruption, not an empty store.
    assert!(matches!(
        TodoList::new(Some("[{\"id\":1,\"description\":\"a\"")),
        Err(TodoError::DataCorruption)
    ));
}

#[test]
fn test_reload_continues_identifiers() {
    let mut todo = TodoList::new(None).unwrap();
    todo.add_task("a".to_string());
    todo.add_task("b".to_string());
    let doc = todo.to_document();

    let mut again = TodoList::new(Some(doc.as_str())).unwrap();
    let t = again.add_task("c".to_string());
    assert_eq!(t.id, 3);
}

#[test]
fn test_id_not_reused_after_delete() {
    let mut todo = TodoList::new(None).unwrap();
    todo.add_task("a".to_string());
    todo.add_task("b".to_string());
    assert!(todo.delete_task(2));
    let t = todo.add_task("c".to_string());
    assert_eq!(t.id, 3);
    assert!(!todo.complete_task(2));
}

#[test]
fn test_complete_missing_changes_nothing() {
    let mut todo = TodoList::new(None).unwrap();
    todo.add_task_at("keep".to_string(), 11);
    let before = todo.to_document();
    assert!(!todo.complete_task(42));
    assert_eq!(todo.to_document(), before);
}
