use dida_core::db::{Database, ListRepository, TagRepository, TaskRepository};
use dida_core::error::{AppError, EntityKind};
use dida_core::models::{List, Priority, Tag, Task};

fn task(id: &str, list: &str, order: i32, created: i64) -> Task {
    Task {
        id: id.to_string(),
        title: format!("task {}", id),
        description: String::new(),
        list_id: list.to_string(),
        completed: false,
        priority: Priority::NotSet,
        due_date: None,
        reminder: None,
        tags: Vec::new(),
        parent_id: None,
        order,
        is_deleted: false,
        created_at: created,
        updated_at: created,
        completed_at: None,
    }
}

fn tag_named(id: &str, name: &str) -> Tag {
    Tag {
        id: id.to_string(),
        name: name.to_string(),
        color: "#888888".to_string(),
        parent_id: None,
        is_pinned: false,
        created_at: 1,
    }
}

fn list(id: &str, name: &str, order: i32, created: i64) -> List {
    List {
        id: id.to_string(),
        name: name.to_string(),
        icon: "list".to_string(),
        color: "#123456".to_string(),
        is_smart: false,
        order,
        created_at: created,
    }
}

const DAY_START: i64 = 1_000_000;
const DAY_END: i64 = 1_086_399;

#[test]
fn due_window_includes_end_of_day_and_excludes_tomorrow() {
    let mut db = Database::new_at(1);
    let mut last_second = task("edge", "smart_inbox", 0, 10);
    last_second.due_date = Some(DAY_END);
    TaskRepository::create(&mut db, &last_second).unwrap();
    let mut tomorrow = task("tomorrow", "smart_inbox", 1, 11);
    tomorrow.due_date = Some(DAY_END + 2);
    TaskRepository::create(&mut db, &tomorrow).unwrap();

    let today: Vec<String> = TaskRepository::get_due_window(&db, DAY_START, DAY_END)
        .iter()
        .map(|t| t.id.clone())
        .collect();
    assert_eq!(today, vec!["edge".to_string()]);
}

#[test]
fn due_window_includes_tasks_completed_today_regardless_of_due() {
    let mut db = Database::new_at(1);
    let mut done = task("done", "smart_inbox", 0, 10);
    done.completed = true;
    done.completed_at = Some(DAY_START + 36_000);
    TaskRepository::create(&mut db, &done).unwrap();
    let mut done_yesterday = task("old", "smart_inbox", 1, 11);
    done_yesterday.completed = true;
    done_yesterday.completed_at = Some(DAY_START - 5);
    TaskRepository::create(&mut db, &done_yesterday).unwrap();

    let today: Vec<String> = TaskRepository::get_due_window(&db, DAY_START, DAY_END)
        .iter()
        .map(|t| t.id.clone())
        .collect();
    assert_eq!(today, vec!["done".to_string()]);
}

#[test]
fn due_window_excludes_overdue_completed_and_deleted() {
    let mut db = Database::new_at(1);
    let mut overdue = task("overdue", "smart_inbox", 0, 10);
    overdue.due_date = Some(DAY_START - 100);
    TaskRepository::create(&mut db, &overdue).unwrap();
    let mut trashed = task("trashed", "smart_inbox", 1, 11);
    trashed.due_date = Some(DAY_START);
    TaskRepository::create(&mut db, &trashed).unwrap();
    TaskRepository::delete_at(&mut db, "trashed", 12).unwrap();

    let today: Vec<String> = TaskRepository::get_due_window(&db, DAY_START, DAY_END)
        .iter()
        .map(|t| t.id.clone())
        .collect();
    // the overdue incomplete task appears (no lower bound on due dates)
    assert_eq!(today, vec!["overdue".to_string()]);
}

#[test]
fn due_window_orders_incomplete_first_then_due_then_priority() {
    let mut db = Database::new_at(1);
    let mut low_late = task("low_late", "smart_inbox", 0, 10);
    low_late.due_date = Some(DAY_START + 500);
    low_late.priority = Priority::Low;
    TaskRepository::create(&mut db, &low_late).unwrap();
    let mut high_early = task("high_early", "smart_inbox", 1, 11);
    high_early.due_date = Some(DAY_START + 100);
    high_early.priority = Priority::Low;
    TaskRepository::create(&mut db, &high_early).unwrap();
    let mut high_late = task("high_late", "smart_inbox", 2, 12);
    high_late.due_date = Some(DAY_START + 500);
    high_late.priority = Priority::High;
    TaskRepository::create(&mut db, &high_late).unwrap();
    let mut finished = task("finished", "smart_inbox", 3, 13);
    finished.completed = true;
    finished.completed_at = Some(DAY_START + 10);
    TaskRepository::create(&mut db, &finished).unwrap();

    let ids: Vec<String> = TaskRepository::get_due_window(&db, DAY_START, DAY_END)
        .iter()
        .map(|t| t.id.clone())
        .collect();
    assert_eq!(
        ids,
        vec![
            "high_early".to_string(),
            "high_late".to_string(),
            "low_late".to_string(),
            "finished".to_string(),
        ]
    );
}

#[test]
fn smart_all_matches_get_all_and_standard_order() {
    let mut db = Database::new_at(1);
    // same order index: newer creation first
    TaskRepository::create(&mut db, &task("older", "smart_inbox", 1, 10)).unwrap();
    TaskRepository::create(&mut db, &task("newer", "smart_inbox", 1, 20)).unwrap();
    TaskRepository::create(&mut db, &task("front", "smart_inbox", 0, 5)).unwrap();

    let all: Vec<String> = TaskRepository::get_all(&db).iter().map(|t| t.id.clone()).collect();
    assert_eq!(all, vec!["front".to_string(), "newer".to_string(), "older".to_string()]);
    let smart_all: Vec<String> =
        TaskRepository::get_by_list(&db, "smart_all").iter().map(|t| t.id.clone()).collect();
    assert_eq!(smart_all, all);
}

#[test]
fn completed_listing_orders_by_completion_then_update() {
    let mut db = Database::new_at(1);
    let mut a = task("a", "smart_inbox", 0, 10);
    a.completed = true;
    a.completed_at = Some(100);
    a.updated_at = 50;
    TaskRepository::create(&mut db, &a).unwrap();
    let mut b = task("b", "smart_inbox", 1, 11);
    b.completed = true;
    b.completed_at = Some(200);
    b.updated_at = 40;
    TaskRepository::create(&mut db, &b).unwrap();
    let mut c = task("c", "smart_inbox", 2, 12);
    c.completed = true;
    c.completed_at = Some(100);
    c.updated_at = 60;
    TaskRepository::create(&mut db, &c).unwrap();

    let ids: Vec<String> = TaskRepository::get_by_list(&db, "smart_completed")
        .iter()
        .map(|t| t.id.clone())
        .collect();
    assert_eq!(ids, vec!["b".to_string(), "c".to_string(), "a".to_string()]);
}

#[test]
fn trash_listing_orders_by_update_descending() {
    let mut db = Database::new_at(1);
    TaskRepository::create(&mut db, &task("first", "smart_inbox", 0, 10)).unwrap();
    TaskRepository::create(&mut db, &task("second", "smart_inbox", 1, 11)).unwrap();
    TaskRepository::delete_at(&mut db, "first", 100).unwrap();
    TaskRepository::delete_at(&mut db, "second", 200).unwrap();

    let ids: Vec<String> = TaskRepository::get_by_list(&db, "smart_trash")
        .iter()
        .map(|t| t.id.clone())
        .collect();
    assert_eq!(ids, vec!["second".to_string(), "first".to_string()]);
}

#[test]
fn unknown_list_id_selects_by_exact_match() {
    let mut db = Database::new_at(1);
    ListRepository::create(&mut db, &list("l1", "Groceries", 0, 2)).unwrap();
    ListRepository::create(&mut db, &list("l2", "Work", 1, 3)).unwrap();
    TaskRepository::create(&mut db, &task("in_l1", "l1", 0, 10)).unwrap();
    TaskRepository::create(&mut db, &task("in_l2", "l2", 0, 11)).unwrap();
    TaskRepository::create(&mut db, &task("inboxed", "smart_inbox", 0, 12)).unwrap();

    let l1: Vec<String> =
        TaskRepository::get_by_list(&db, "l1").iter().map(|t| t.id.clone()).collect();
    assert_eq!(l1, vec!["in_l1".to_string()]);
    // the inbox behaves as a plain list id
    let inbox: Vec<String> =
        TaskRepository::get_by_list(&db, "smart_inbox").iter().map(|t| t.id.clone()).collect();
    assert_eq!(inbox, vec!["inboxed".to_string()]);
    assert!(TaskRepository::get_by_list(&db, "never_created").is_empty());
}

#[test]
fn lists_order_by_index_then_creation() {
    let mut db = Database::new_at(1);
    ListRepository::create(&mut db, &list("l_old", "Old", 7, 100)).unwrap();
    ListRepository::create(&mut db, &list("l_new", "New", 7, 200)).unwrap();
    ListRepository::create(&mut db, &list("l_front", "Front", 6, 300)).unwrap();
    let user: Vec<String> = ListRepository::get_all(&db)
        .iter()
        .filter(|l| !l.is_smart)
        .map(|l| l.id.clone())
        .collect();
    assert_eq!(user, vec!["l_front".to_string(), "l_old".to_string(), "l_new".to_string()]);
}

#[test]
fn tags_order_by_name_code_points() {
    let mut db = Database::new_at(1);
    TagRepository::create(&mut db, &tag_named("t1", "banana")).unwrap();
    TagRepository::create(&mut db, &tag_named("t2", "apple")).unwrap();
    TagRepository::create(&mut db, &tag_named("t3", "Zebra")).unwrap();
    let names: Vec<String> =
        TagRepository::get_all(&db).iter().map(|t| t.name.clone()).collect();
    // binary collation: upper-case code points sort before lower-case
    assert_eq!(names, vec!["Zebra".to_string(), "apple".to_string(), "banana".to_string()]);
}

#[test]
fn duplicate_tag_name_conflicts() {
    let mut db = Database::new_at(1);
    TagRepository::create(&mut db, &tag_named("t1", "work")).unwrap();
    let e = TagRepository::create(&mut db, &tag_named("t2", "work")).unwrap_err();
    assert!(matches!(e, AppError::Conflict(EntityKind::Tag, _)));
}

#[test]
fn tag_update_checks_existence_name_and_parent() {
    let mut db = Database::new_at(1);
    TagRepository::create(&mut db, &tag_named("t1", "work")).unwrap();
    TagRepository::create(&mut db, &tag_named("t2", "home")).unwrap();

    let e = TagRepository::update(&mut db, &tag_named("ghost", "x")).unwrap_err();
    assert!(matches!(e, AppError::NotFound(EntityKind::Tag, _)));

    let e = TagRepository::update(&mut db, &tag_named("t2", "work")).unwrap_err();
    assert!(matches!(e, AppError::Conflict(EntityKind::Tag, _)));

    let mut orphan = tag_named("t2", "home base");
    orphan.parent_id = Some("ghost".to_string());
    let e = TagRepository::update(&mut db, &orphan).unwrap_err();
    assert!(matches!(e, AppError::Storage(EntityKind::Tag, _)));

    let mut ok = tag_named("t2", "home base");
    ok.parent_id = Some("t1".to_string());
    ok.is_pinned = true;
    TagRepository::update(&mut db, &ok).unwrap();
    let got = TagRepository::get_by_id(&db, "t2").unwrap();
    assert_eq!(got.name, "home base");
    assert_eq!(got.parent_id, Some("t1".to_string()));
    assert!(got.is_pinned);
}

#[test]
fn deleting_a_tag_detaches_children_and_unlinks_tasks() {
    let mut db = Database::new_at(1);
    TagRepository::create(&mut db, &tag_named("parent", "projects")).unwrap();
    let mut child = tag_named("child", "sub");
    child.parent_id = Some("parent".to_string());
    TagRepository::create(&mut db, &child).unwrap();
    let mut t = task("t1", "smart_inbox", 0, 10);
    t.tags = vec!["parent".to_string()];
    TaskRepository::create(&mut db, &t).unwrap();

    TagRepository::delete(&mut db, "parent").unwrap();
    assert!(TagRepository::get_by_id(&db, "parent").is_err());
    let child_after = TagRepository::get_by_id(&db, "child").unwrap();
    assert_eq!(child_after.parent_id, None);
    let got = TaskRepository::get_by_id(&db, "t1").unwrap();
    assert!(got.tags.is_empty());
}

#[test]
fn list_update_rewrites_only_mutable_columns() {
    let mut db = Database::new_at(1);
    ListRepository::create(&mut db, &list("l1", "Groceries", 0, 2)).unwrap();
    let mut changed = list("l1", "Food", 9, 777);
    changed.is_smart = true;
    ListRepository::update(&mut db, &changed).unwrap();
    let got = ListRepository::get_by_id(&db, "l1").unwrap();
    assert_eq!(got.name, "Food");
    assert_eq!(got.order, 9);
    assert_eq!(got.created_at, 2);
    assert!(!got.is_smart);
}

#[test]
fn list_delete_unknown_and_duplicate_create() {
    let mut db = Database::new_at(1);
    let e = ListRepository::delete(&mut db, "nope").unwrap_err();
    assert!(matches!(e, AppError::NotFound(EntityKind::List, _)));
    ListRepository::create(&mut db, &list("l1", "A", 0, 2)).unwrap();
    let e = ListRepository::create(&mut db, &list("l1", "B", 1, 3)).unwrap_err();
    assert!(matches!(e, AppError::Conflict(EntityKind::List, _)));
}
