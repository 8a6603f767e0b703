use dida_core::db::{Database, ListRepository, TaskRepository};
use dida_core::models::{Priority, SmartListType, Task};

fn ids(lists: &[dida_core::models::List]) -> Vec<String> {
    lists.iter().map(|l| l.id.clone()).collect()
}

#[test]
fn new_store_seeds_smart_lists() {
    let db = Database::new_at(5);
    let lists = ListRepository::get_all(&db);
    assert_eq!(lists.len(), 6);
    assert_eq!(
        ids(&lists),
        vec![
            "smart_all".to_string(),
            "smart_today".to_string(),
            "smart_week".to_string(),
            "smart_inbox".to_string(),
            "smart_completed".to_string(),
            "smart_trash".to_string(),
        ]
    );
    assert_eq!(lists[0].name, "All Tasks");
    assert_eq!(lists[5].name, "Trash");
    assert!(lists.iter().all(|l| l.is_smart));
    assert!(lists.iter().all(|l| l.created_at == 5));
    for (i, l) in lists.iter().enumerate() {
        assert_eq!(l.order, i as i32);
    }
}

#[test]
fn init_smart_lists_self_heals() {
    let mut db = Database::new_at(5);
    ListRepository::delete(&mut db, "smart_trash").unwrap();
    assert!(ListRepository::get_by_id(&db, "smart_trash").is_err());
    db.init_smart_lists(9);
    let restored = ListRepository::get_by_id(&db, "smart_trash").unwrap();
    assert!(restored.is_smart);
    assert_eq!(restored.order, 5);
    assert_eq!(restored.created_at, 9);
}

#[test]
fn smart_list_resolution() {
    assert_eq!(SmartListType::resolve("smart_today"), Some(SmartListType::Today));
    assert_eq!(SmartListType::resolve("smart_trash"), Some(SmartListType::Trash));
    assert_eq!(SmartListType::resolve("my_groceries"), None);
    assert_eq!(SmartListType::Completed.id_str(), "smart_completed");
}

#[test]
fn priority_ordinals_normalize() {
    assert_eq!(Priority::from_i32(0), Priority::NotSet);
    assert_eq!(Priority::from_i32(1), Priority::Low);
    assert_eq!(Priority::from_i32(2), Priority::Medium);
    assert_eq!(Priority::from_i32(3), Priority::High);
    assert_eq!(Priority::from_i32(7), Priority::NotSet);
    assert_eq!(Priority::from_i32(-1), Priority::NotSet);
    assert_eq!(Priority::High.to_i32(), 3);
    assert_eq!(Priority::from_i32(Priority::Medium.to_i32()), Priority::Medium);
}

#[test]
fn new_task_is_consistent() {
    let t = Task::new("write report".to_string(), "smart_inbox".to_string());
    assert!(!t.completed);
    assert!(t.completed_at.is_none());
    assert_eq!(t.created_at, t.updated_at);
    assert!(!t.is_deleted);
    assert_eq!(t.priority, Priority::NotSet);
    assert!(t.tags.is_empty());
}

#[test]
fn clock_backed_operations_fit_together() {
    let mut db = Database::new();
    assert_eq!(ListRepository::get_all(&db).len(), 6);
    let t = Task::new("catch the post".to_string(), "smart_inbox".to_string());
    let id = t.id.clone();
    TaskRepository::create(&mut db, &t).unwrap();

    TaskRepository::delete(&mut db, &id).unwrap();
    assert!(TaskRepository::get_by_id(&db, &id).unwrap().is_deleted);
    TaskRepository::undo_delete(&mut db, &id).unwrap();
    assert!(!TaskRepository::get_by_id(&db, &id).unwrap().is_deleted);

    let toggled = TaskRepository::toggle_completed(&mut db, &id).unwrap();
    assert!(toggled.completed);
    assert!(toggled.completed_at.is_some());
    // completed at this very moment: inside today's local window
    let today = TaskRepository::get_by_list(&db, "smart_today");
    assert!(today.iter().any(|x| x.id == id));
    let week = TaskRepository::get_by_list(&db, "smart_week");
    assert!(week.iter().any(|x| x.id == id));
}

#[test]
fn toggle_keeps_completion_stamp_consistent() {
    let mut t = Task::new("water plants".to_string(), "smart_inbox".to_string());
    t.toggle_completed_at(42);
    assert!(t.completed);
    assert_eq!(t.completed_at, Some(42));
    assert_eq!(t.updated_at, 42);
    t.toggle_completed_at(50);
    assert!(!t.completed);
    assert_eq!(t.completed_at, None);
    assert_eq!(t.updated_at, 50);
}
