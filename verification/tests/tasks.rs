use dida_core::db::{Database, ListRepository, TagRepository, TaskRepository};
use dida_core::error::{AppError, EntityKind};
use dida_core::models::{List, Priority, Tag, Task};

fn task(id: &str, list: &str, order: i32, created: i64) -> Task {
    Task {
        id: id.to_string(),
        title: format!("task {}", id),
        description: String::new(),
        list_id: list.to_string(),
        completed: false,
        priority: Priority::NotSet,
        due_date: None,
        reminder: None,
        tags: Vec::new(),
        parent_id: None,
        order,
        is_deleted: false,
        created_at: created,
        updated_at: created,
        completed_at: None,
    }
}

fn tag(id: &str, name: &str) -> Tag {
    Tag {
        id: id.to_string(),
        name: name.to_string(),
        color: "#888888".to_string(),
        parent_id: None,
        is_pinned: false,
        created_at: 1,
    }
}

fn list(id: &str, name: &str, order: i32) -> List {
    List {
        id: id.to_string(),
        name: name.to_string(),
        icon: "list".to_string(),
        color: "#123456".to_string(),
        is_smart: false,
        order,
        created_at: 1,
    }
}

#[test]
fn create_and_get_round_trip() {
    let mut db = Database::new_at(1);
    let t = task("t1", "smart_inbox", 0, 10);
    let created = TaskRepository::create(&mut db, &t).unwrap();
    assert_eq!(created.id, "t1");
    let got = TaskRepository::get_by_id(&db, "t1").unwrap();
    assert_eq!(got.title, "task t1");
    assert_eq!(got.list_id, "smart_inbox");
    assert!(got.tags.is_empty());
}

#[test]
fn create_rejects_unknown_list() {
    let mut db = Database::new_at(1);
    let t = task("t1", "no_such_list", 0, 10);
    let e = TaskRepository::create(&mut db, &t).unwrap_err();
    assert!(matches!(e, AppError::Storage(EntityKind::List, _)));
    assert!(TaskRepository::get_by_id(&db, "t1").is_err());
}

#[test]
fn create_rejects_duplicate_id() {
    let mut db = Database::new_at(1);
    TaskRepository::create(&mut db, &task("t1", "smart_inbox", 0, 10)).unwrap();
    let e = TaskRepository::create(&mut db, &task("t1", "smart_inbox", 1, 11)).unwrap_err();
    assert!(matches!(e, AppError::Conflict(EntityKind::Task, _)));
}

#[test]
fn create_rejects_unknown_parent() {
    let mut db = Database::new_at(1);
    let mut t = task("t1", "smart_inbox", 0, 10);
    t.parent_id = Some("ghost".to_string());
    let e = TaskRepository::create(&mut db, &t).unwrap_err();
    assert!(matches!(e, AppError::Storage(EntityKind::Task, _)));
}

#[test]
fn update_unknown_task_is_not_found() {
    let mut db = Database::new_at(1);
    let e = TaskRepository::update(&mut db, &task("nope", "smart_inbox", 0, 10)).unwrap_err();
    assert!(matches!(e, AppError::NotFound(EntityKind::Task, _)));
}

#[test]
fn soft_delete_hides_from_listings_but_not_lookup() {
    let mut db = Database::new_at(1);
    ListRepository::create(&mut db, &list("l1", "Groceries", 0)).unwrap();
    TaskRepository::create(&mut db, &task("keep", "l1", 0, 10)).unwrap();
    TaskRepository::create(&mut db, &task("gone", "l1", 1, 11)).unwrap();
    TaskRepository::delete_at(&mut db, "gone", 20).unwrap();

    let all: Vec<String> = TaskRepository::get_all(&db).iter().map(|t| t.id.clone()).collect();
    assert_eq!(all, vec!["keep".to_string()]);
    let by_list: Vec<String> =
        TaskRepository::get_by_list(&db, "l1").iter().map(|t| t.id.clone()).collect();
    assert_eq!(by_list, vec!["keep".to_string()]);
    assert!(TaskRepository::get_by_parent(&db, "gone").is_empty());

    let direct = TaskRepository::get_by_id(&db, "gone").unwrap();
    assert!(direct.is_deleted);
    assert_eq!(direct.updated_at, 20);

    let trash: Vec<String> =
        TaskRepository::get_by_list(&db, "smart_trash").iter().map(|t| t.id.clone()).collect();
    assert_eq!(trash, vec!["gone".to_string()]);
}

#[test]
fn delete_then_undo_is_noop_except_updated_at() {
    let mut db = Database::new_at(1);
    let mut t = task("t1", "smart_inbox", 3, 10);
    t.description = "details".to_string();
    t.due_date = Some(777);
    TaskRepository::create(&mut db, &t).unwrap();
    let before = TaskRepository::get_by_id(&db, "t1").unwrap();

    TaskRepository::delete_at(&mut db, "t1", 20).unwrap();
    TaskRepository::undo_delete_at(&mut db, "t1", 30).unwrap();

    let after = TaskRepository::get_by_id(&db, "t1").unwrap();
    assert_eq!(after.updated_at, 30);
    assert_eq!(after.title, before.title);
    assert_eq!(after.description, before.description);
    assert_eq!(after.list_id, before.list_id);
    assert_eq!(after.completed, before.completed);
    assert_eq!(after.due_date, before.due_date);
    assert_eq!(after.order, before.order);
    assert_eq!(after.is_deleted, before.is_deleted);
    assert_eq!(after.created_at, before.created_at);
    assert_eq!(after.completed_at, before.completed_at);

    let all: Vec<String> = TaskRepository::get_all(&db).iter().map(|t| t.id.clone()).collect();
    assert_eq!(all, vec!["t1".to_string()]);
}

#[test]
fn undo_delete_unknown_is_not_found() {
    let mut db = Database::new_at(1);
    let e = TaskRepository::undo_delete_at(&mut db, "nope", 5).unwrap_err();
    assert!(matches!(e, AppError::NotFound(EntityKind::Task, _)));
}

#[test]
fn batch_reorder_applies_all_pairs() {
    let mut db = Database::new_at(1);
    TaskRepository::create(&mut db, &task("a", "smart_inbox", 0, 10)).unwrap();
    TaskRepository::create(&mut db, &task("b", "smart_inbox", 1, 11)).unwrap();
    TaskRepository::create(&mut db, &task("c", "smart_inbox", 2, 12)).unwrap();
    TaskRepository::update_orders(
        &mut db,
        vec![("a".to_string(), 2), ("b".to_string(), 0), ("c".to_string(), 1)],
    )
    .unwrap();
    let all: Vec<String> = TaskRepository::get_all(&db).iter().map(|t| t.id.clone()).collect();
    assert_eq!(all, vec!["b".to_string(), "c".to_string(), "a".to_string()]);
}

#[test]
fn batch_reorder_ignores_unknown_ids_and_last_pair_wins() {
    let mut db = Database::new_at(1);
    TaskRepository::create(&mut db, &task("a", "smart_inbox", 0, 10)).unwrap();
    TaskRepository::update_orders(
        &mut db,
        vec![("ghost".to_string(), 9), ("a".to_string(), 5), ("a".to_string(), 7)],
    )
    .unwrap();
    assert_eq!(TaskRepository::get_by_id(&db, "a").unwrap().order, 7);
}

#[test]
fn update_reconciles_tag_set_exactly() {
    let mut db = Database::new_at(1);
    TagRepository::create(&mut db, &tag("x", "xray")).unwrap();
    TagRepository::create(&mut db, &tag("y", "yankee")).unwrap();
    TagRepository::create(&mut db, &tag("z", "zulu")).unwrap();
    let mut t = task("t1", "smart_inbox", 0, 10);
    t.tags = vec!["x".to_string(), "y".to_string()];
    let created = TaskRepository::create(&mut db, &t).unwrap();
    assert_eq!(created.tags, vec!["x".to_string(), "y".to_string()]);

    t.tags = vec!["y".to_string(), "z".to_string()];
    let updated = TaskRepository::update(&mut db, &t).unwrap();
    assert_eq!(updated.tags, vec!["y".to_string(), "z".to_string()]);

    assert!(TaskRepository::get_by_tag(&db, "x").is_empty());
    assert_eq!(TaskRepository::get_by_tag(&db, "y").len(), 1);
    assert_eq!(TaskRepository::get_by_tag(&db, "z").len(), 1);
}

#[test]
fn duplicate_tag_ids_collapse_to_one_row() {
    let mut db = Database::new_at(1);
    TagRepository::create(&mut db, &tag("y", "yankee")).unwrap();
    let mut t = task("t1", "smart_inbox", 0, 10);
    t.tags = vec!["y".to_string(), "y".to_string()];
    let created = TaskRepository::create(&mut db, &t).unwrap();
    assert_eq!(created.tags, vec!["y".to_string()]);
}

#[test]
fn create_drops_invalid_tag_ids() {
    let mut db = Database::new_at(1);
    TagRepository::create(&mut db, &tag("valid_tag", "valid")).unwrap();
    let mut t = task("t1", "smart_inbox", 0, 10);
    t.tags = vec!["valid_tag".to_string(), "nonexistent".to_string()];
    let created = TaskRepository::create(&mut db, &t).unwrap();
    assert_eq!(created.tags, vec!["valid_tag".to_string()]);
    let got = TaskRepository::get_by_id(&db, "t1").unwrap();
    assert_eq!(got.tags, vec!["valid_tag".to_string()]);
}

#[test]
fn completing_parent_cascades_one_level() {
    let mut db = Database::new_at(1);
    TaskRepository::create(&mut db, &task("p", "smart_inbox", 0, 10)).unwrap();
    let mut c1 = task("c1", "smart_inbox", 1, 11);
    c1.parent_id = Some("p".to_string());
    TaskRepository::create(&mut db, &c1).unwrap();
    let mut c2 = task("c2", "smart_inbox", 2, 12);
    c2.parent_id = Some("p".to_string());
    c2.completed = true;
    c2.completed_at = Some(99);
    TaskRepository::create(&mut db, &c2).unwrap();
    let mut g = task("g", "smart_inbox", 3, 13);
    g.parent_id = Some("c1".to_string());
    TaskRepository::create(&mut db, &g).unwrap();

    let done = TaskRepository::toggle_completed_at(&mut db, "p", 42).unwrap();
    assert!(done.completed);
    assert_eq!(done.completed_at, Some(42));

    let c1_after = TaskRepository::get_by_id(&db, "c1").unwrap();
    assert!(c1_after.completed);
    assert_eq!(c1_after.completed_at, Some(42));
    assert_eq!(c1_after.updated_at, 42);

    let c2_after = TaskRepository::get_by_id(&db, "c2").unwrap();
    assert!(c2_after.completed);
    assert_eq!(c2_after.completed_at, Some(99));

    // one level only: the grandchild stays incomplete
    let g_after = TaskRepository::get_by_id(&db, "g").unwrap();
    assert!(!g_after.completed);
}

#[test]
fn uncompleting_parent_leaves_children() {
    let mut db = Database::new_at(1);
    let mut p = task("p", "smart_inbox", 0, 10);
    p.completed = true;
    p.completed_at = Some(5);
    TaskRepository::create(&mut db, &p).unwrap();
    let mut c = task("c", "smart_inbox", 1, 11);
    c.parent_id = Some("p".to_string());
    c.completed = true;
    c.completed_at = Some(6);
    TaskRepository::create(&mut db, &c).unwrap();

    let undone = TaskRepository::toggle_completed_at(&mut db, "p", 42).unwrap();
    assert!(!undone.completed);
    assert_eq!(undone.completed_at, None);

    let c_after = TaskRepository::get_by_id(&db, "c").unwrap();
    assert!(c_after.completed);
    assert_eq!(c_after.completed_at, Some(6));
}

#[test]
fn hard_delete_cascades_to_descendants() {
    let mut db = Database::new_at(1);
    TagRepository::create(&mut db, &tag("x", "xray")).unwrap();
    TaskRepository::create(&mut db, &task("p", "smart_inbox", 0, 10)).unwrap();
    let mut c = task("c", "smart_inbox", 1, 11);
    c.parent_id = Some("p".to_string());
    c.tags = vec!["x".to_string()];
    TaskRepository::create(&mut db, &c).unwrap();
    let mut g = task("g", "smart_inbox", 2, 12);
    g.parent_id = Some("c".to_string());
    TaskRepository::create(&mut db, &g).unwrap();

    TaskRepository::delete_permanently(&mut db, "p").unwrap();
    assert!(TaskRepository::get_by_id(&db, "p").is_err());
    assert!(TaskRepository::get_by_id(&db, "c").is_err());
    assert!(TaskRepository::get_by_id(&db, "g").is_err());
    assert!(TaskRepository::get_by_tag(&db, "x").is_empty());
}

#[test]
fn delete_permanently_unknown_is_not_found() {
    let mut db = Database::new_at(1);
    let e = TaskRepository::delete_permanently(&mut db, "nope").unwrap_err();
    assert!(matches!(e, AppError::NotFound(EntityKind::Task, _)));
}

#[test]
fn empty_trash_removes_deleted_and_their_children() {
    let mut db = Database::new_at(1);
    TaskRepository::create(&mut db, &task("stay", "smart_inbox", 0, 10)).unwrap();
    TaskRepository::create(&mut db, &task("p", "smart_inbox", 1, 11)).unwrap();
    let mut c = task("c", "smart_inbox", 2, 12);
    c.parent_id = Some("p".to_string());
    TaskRepository::create(&mut db, &c).unwrap();
    TaskRepository::delete_at(&mut db, "p", 20).unwrap();

    TaskRepository::empty_trash(&mut db).unwrap();
    assert!(TaskRepository::get_by_id(&db, "p").is_err());
    assert!(TaskRepository::get_by_id(&db, "c").is_err());
    assert!(TaskRepository::get_by_id(&db, "stay").is_ok());
    // idempotent on an empty trash
    TaskRepository::empty_trash(&mut db).unwrap();
    assert!(TaskRepository::get_by_id(&db, "stay").is_ok());
}

#[test]
fn deleting_a_list_hard_deletes_its_tasks() {
    let mut db = Database::new_at(1);
    ListRepository::create(&mut db, &list("l1", "Groceries", 0)).unwrap();
    TaskRepository::create(&mut db, &task("t", "l1", 0, 10)).unwrap();
    ListRepository::delete(&mut db, "l1").unwrap();
    let e = TaskRepository::get_by_id(&db, "t").unwrap_err();
    assert!(matches!(e, AppError::NotFound(EntityKind::Task, _)));
    assert!(ListRepository::get_by_id(&db, "l1").is_err());
}

#[test]
fn update_preserves_identity_and_creation_stamp() {
    let mut db = Database::new_at(1);
    TaskRepository::create(&mut db, &task("t1", "smart_inbox", 0, 10)).unwrap();
    let mut t = task("t1", "smart_inbox", 4, 999);
    t.title = "renamed".to_string();
    t.updated_at = 33;
    TaskRepository::update(&mut db, &t).unwrap();
    let got = TaskRepository::get_by_id(&db, "t1").unwrap();
    assert_eq!(got.title, "renamed");
    assert_eq!(got.order, 4);
    assert_eq!(got.created_at, 10);
    assert_eq!(got.updated_at, 33);
}
