//! Task repository: lookups, the smart-list query dispatch, soft deletion
//! and restore, tag reconciliation, batch reorder, hard deletion and the
//! completion cascade.

use vstd::prelude::*;
use vstd::pervasive::VecAdditionalExecFns;
use crate::clock::{local_window_bounds, now_timestamp};
use crate::db::connection::{
    bare, has_link, has_list, has_tag, has_task, hydrated, lemma_task_at, task_at,
    Database, DatabaseView, LinkView, TaskTag,
};
use crate::db::cascade::{purge, purged, PurgeSeed, PurgeSeedView};
use crate::db::query::{
    chosen, comes_from, lemma_chosen_member, listed, picks, TaskQuery, TaskQueryView,
};
use crate::db::sorting::{in_order, lemma_in_order_member, TaskOrder};
use vstd::pervasive::unreached;
use crate::error::{fails_conflict, fails_not_found, fails_storage, AppError, EntityKind};
use crate::models::list::SmartListType;
use crate::text::str_eq;
use crate::models::task::{Task, TaskView};

verus! {

/// Operations over task records and the smart-list queries.
pub struct TaskRepository;

/// The store after one task's deletion flag is set or cleared at `now`.
pub open spec fn flag_deleted(db: DatabaseView, id: Seq<char>, deleted: bool, now: i64) -> DatabaseView {
    DatabaseView {
        tasks: Seq::new(
            db.tasks.len(),
            |i: int|
                if db.tasks[i].id == id {
                    TaskView { is_deleted: deleted, updated_at: now, ..db.tasks[i] }
                } else {
                    db.tasks[i]
                },
        ),
        ..db
    }
}

/// The task table after one (id, order) assignment.
pub open spec fn one_order(tasks: Seq<TaskView>, id: Seq<char>, o: i32) -> Seq<TaskView> {
    Seq::new(
        tasks.len(),
        |i: int|
            if tasks[i].id == id {
                TaskView { order: o, ..tasks[i] }
            } else {
                tasks[i]
            },
    )
}

/// The task table after a batch of (id, order) assignments, applied in
/// order; a later pair for the same id wins, an unknown id changes nothing.
pub open spec fn order_applied(tasks: Seq<TaskView>, pairs: Seq<(String, i32)>) -> Seq<TaskView>
    decreases pairs.len(),
{
    if pairs.len() == 0 {
        tasks
    } else {
        order_applied(one_order(tasks, pairs[0].0@, pairs[0].1), pairs.drop_first())
    }
}

/// The association table without every row of one task.
pub open spec fn without_task_links(links: Seq<LinkView>, task_id: Seq<char>) -> Seq<LinkView>
    decreases links.len(),
{
    if links.len() == 0 {
        Seq::empty()
    } else {
        without_task_links(links.drop_last(), task_id) + if links.last().task_id == task_id {
            Seq::empty()
        } else {
            seq![links.last()]
        }
    }
}

/// The association table after a task's tag ids are inserted in order:
/// an id without a tag row is dropped, a pair already present is kept
/// once (the idempotent insert).
pub open spec fn linked(
    links: Seq<LinkView>,
    task_id: Seq<char>,
    tags: Seq<Seq<char>>,
    tag_table: Seq<crate::models::tag::TagView>,
) -> Seq<LinkView>
    decreases tags.len(),
{
    if tags.len() == 0 {
        links
    } else {
        let once = if has_tag(tag_table, tags[0]) && !has_link(links, task_id, tags[0]) {
            links.push(LinkView { task_id: task_id, tag_id: tags[0] })
        } else {
            links
        };
        linked(once, task_id, tags.drop_first(), tag_table)
    }
}

/// When a task may be inserted: a fresh id, an existing list, and an
/// existing parent where one is named.
pub open spec fn insertable(db: DatabaseView, t: TaskView) -> bool {
    &&& !has_task(db.tasks, t.id)
    &&& has_list(db.lists, t.list_id)
    &&& (t.parent_id matches Some(p) ==> has_task(db.tasks, p))
}

/// The store after a task is created: its bare row appended, and one
/// association row added per valid, not-yet-linked tag id.
pub open spec fn with_created(db: DatabaseView, t: TaskView) -> DatabaseView {
    DatabaseView {
        tasks: db.tasks.push(bare(t)),
        links: linked(db.links, t.id, t.tags, db.tags),
        ..db
    }
}

/// An updated row: every mutable column taken from the caller's entity,
/// identity and creation stamp kept from the stored row.
pub open spec fn merged(row: TaskView, t: TaskView) -> TaskView {
    TaskView { id: row.id, created_at: row.created_at, tags: Seq::empty(), ..t }
}

/// When an update may be applied to an existing row.
pub open spec fn updatable(db: DatabaseView, t: TaskView) -> bool {
    &&& has_list(db.lists, t.list_id)
    &&& (t.parent_id matches Some(p) ==> has_task(db.tasks, p))
}

/// The store after a task is updated: the row overwritten in place, and
/// its associations dropped and reinserted from the entity's tag list.
pub open spec fn with_updated(db: DatabaseView, t: TaskView) -> DatabaseView {
    DatabaseView {
        tasks: Seq::new(
            db.tasks.len(),
            |i: int|
                if db.tasks[i].id == t.id {
                    merged(db.tasks[i], t)
                } else {
                    db.tasks[i]
                },
        ),
        links: linked(without_task_links(db.links, t.id), t.id, t.tags, db.tags),
        ..db
    }
}

/// Tables with pointwise-equal ids hold the same ids.
proof fn lemma_same_ids(a: Seq<TaskView>, b: Seq<TaskView>)
    requires
        a.len() == b.len(),
        forall|i: int| 0 <= i < a.len() ==> (#[trigger] a[i]).id == (#[trigger] b[i]).id,
    ensures
        forall|x: Seq<char>| #[trigger] has_task(a, x) <==> #[trigger] has_task(b, x),
{
    assert forall|x: Seq<char>| #[trigger] has_task(a, x) <==> #[trigger] has_task(b, x) by {
        if has_task(a, x) {
            let i = choose|i: int| 0 <= i < a.len() && #[trigger] a[i].id == x;
            assert(b[i].id == x);
        }
        if has_task(b, x) {
            let i = choose|i: int| 0 <= i < b.len() && #[trigger] b[i].id == x;
            assert(a[i].id == x);
        }
    }
}

/// A task-table change that touches neither ids nor references nor row
/// consistency keeps the store invariant.
proof fn lemma_same_shape_wf(pre: DatabaseView, post: DatabaseView)
    requires
        pre.wf(),
        post.lists == pre.lists,
        post.tags == pre.tags,
        post.links == pre.links,
        post.tasks.len() == pre.tasks.len(),
        forall|i: int|
            0 <= i < pre.tasks.len() ==> (#[trigger] post.tasks[i]).id == (
            #[trigger] pre.tasks[i]).id && post.tasks[i].list_id == pre.tasks[i].list_id
                && post.tasks[i].parent_id == pre.tasks[i].parent_id && post.tasks[i].wf()
                && post.tasks[i].tags == Seq::<Seq<char>>::empty(),
    ensures
        post.wf(),
        forall|x: Seq<char>| #[trigger] has_task(post.tasks, x) <==> has_task(pre.tasks, x),
{
    assert forall|x: Seq<char>| #[trigger] has_task(post.tasks, x) <==> has_task(
        pre.tasks,
        x,
    ) by {
        if has_task(pre.tasks, x) {
            let i = choose|i: int| 0 <= i < pre.tasks.len() && #[trigger] pre.tasks[i].id == x;
            assert(post.tasks[i].id == x);
        }
        if has_task(post.tasks, x) {
            let i = choose|i: int| 0 <= i < post.tasks.len() && #[trigger] post.tasks[i].id == x;
            assert(pre.tasks[i].id == x);
        }
    }
    assert forall|i: int, j: int| 0 <= i < j < post.tasks.len() implies (
    #[trigger] post.tasks[i]).id != (#[trigger] post.tasks[j]).id by {
        assert(pre.tasks[i].id != pre.tasks[j].id);
    }
    assert forall|i: int|
        0 <= i < post.tasks.len() implies (#[trigger] post.tasks[i]).wf() && post.tasks[i].tags
        == Seq::<Seq<char>>::empty() by {
        assert(post.tasks[i].id == pre.tasks[i].id);
    }
    assert forall|i: int| 0 <= i < post.tasks.len() implies has_list(
        post.lists,
        (#[trigger] post.tasks[i]).list_id,
    ) by {
        assert(has_list(pre.lists, pre.tasks[i].list_id));
    }
    assert forall|i: int|
        0 <= i < post.tasks.len() implies ((#[trigger] post.tasks[i]).parent_id matches Some(p)
        ==> has_task(post.tasks, p)) by {
        if post.tasks[i].parent_id is Some {
            let p = post.tasks[i].parent_id->Some_0;
            assert(pre.tasks[i].parent_id == Some(p));
            assert(has_task(pre.tasks, p));
        }
    }
    assert forall|i: int| 0 <= i < post.links.len() implies has_task(
        post.tasks,
        (#[trigger] post.links[i]).task_id,
    ) && has_tag(post.tags, post.links[i].tag_id) by {
        assert(has_task(pre.tasks, pre.links[i].task_id));
    }
}

impl TaskRepository {
    /// Looks a task up by id, hydrated with its tag set. The trash is not
    /// excluded: a soft-deleted task stays reachable by direct lookup.
    pub fn get_by_id(db: &Database, task_id: &str) -> (r: Result<Task, AppError>)
        requires
            db@.wf(),
        ensures
            r is Ok <==> has_task(db@.tasks, task_id@),
            r matches Ok(t) ==> t@ == hydrated(task_at(db@.tasks, task_id@), db@.links),
            r is Err ==> fails_not_found(r, EntityKind::Task, task_id@),
    {
        match db.find_task(task_id) {
            Some(i) => {
                proof {
                    lemma_task_at(db@.tasks, i as int);
                }
                Ok(db.hydrated_row(i))
            },
            None => Err(AppError::NotFound(EntityKind::Task, task_id.to_owned())),
        }
    }

    /// Every task not in the trash: order index ascending, then creation
    /// time descending.
    pub fn get_all(db: &Database) -> (r: Vec<Task>)
        ensures
            r.deep_view() == in_order(
                TaskOrder::Standard,
                chosen(db@.tasks, TaskQueryView::AllVisible, db@.links),
            ),
    {
        listed(db, &TaskQuery::AllVisible, TaskOrder::Standard)
    }

    /// The non-deleted tasks associated with a tag, in standard order.
    pub fn get_by_tag(db: &Database, tag_id: &str) -> (r: Vec<Task>)
        ensures
            r.deep_view() == in_order(
                TaskOrder::Standard,
                chosen(db@.tasks, TaskQueryView::WithTag(tag_id@), db@.links),
            ),
    {
        listed(db, &TaskQuery::WithTag(tag_id.to_owned()), TaskOrder::Standard)
    }

    /// The non-deleted direct children of a task, in standard order.
    pub fn get_by_parent(db: &Database, parent_id: &str) -> (r: Vec<Task>)
        ensures
            r.deep_view() == in_order(
                TaskOrder::Standard,
                chosen(db@.tasks, TaskQueryView::ChildrenOf(parent_id@), db@.links),
            ),
    {
        listed(db, &TaskQuery::ChildrenOf(parent_id.to_owned()), TaskOrder::Standard)
    }

    /// The due-window view behind the Today and Week smart lists, for an
    /// explicit window: incomplete tasks due on or before `window_end`,
    /// plus tasks completed within the window; incomplete first, then due
    /// date ascending, then priority descending.
    pub fn get_due_window(db: &Database, window_start: i64, window_end: i64) -> (r: Vec<Task>)
        ensures
            r.deep_view() == in_order(
                TaskOrder::Agenda,
                chosen(db@.tasks, TaskQueryView::DueWindow(window_start, window_end), db@.links),
            ),
    {
        listed(db, &TaskQuery::DueWindow(window_start, window_end), TaskOrder::Agenda)
    }

    /// The tasks of one listing request, dispatched on the well-known
    /// smart-list ids; any other id selects that list's own tasks. The
    /// Today and Week views read the local clock for their windows.
    pub fn get_by_list(db: &Database, list_id: &str) -> (r: Vec<Task>)
        ensures
            ({
                let q = SmartListType::spec_resolve(list_id@);
                &&& q == Some(SmartListType::Trash) ==> r.deep_view() == in_order(
                    TaskOrder::TrashNewest,
                    chosen(db@.tasks, TaskQueryView::Trashed, db@.links),
                )
                &&& q == Some(SmartListType::Completed) ==> r.deep_view() == in_order(
                    TaskOrder::CompletedRecent,
                    chosen(db@.tasks, TaskQueryView::CompletedVisible, db@.links),
                )
                &&& q == Some(SmartListType::All) ==> r.deep_view() == in_order(
                    TaskOrder::Standard,
                    chosen(db@.tasks, TaskQueryView::AllVisible, db@.links),
                )
                &&& q == Some(SmartListType::Today) || q == Some(SmartListType::Week)
                    ==> exists|w: (i64, i64)|
                    r.deep_view() == #[trigger] in_order(
                        TaskOrder::Agenda,
                        chosen(db@.tasks, TaskQueryView::DueWindow(w.0, w.1), db@.links),
                    )
                &&& q is None || q == Some(SmartListType::Inbox) ==> r.deep_view() == in_order(
                    TaskOrder::Standard,
                    chosen(db@.tasks, TaskQueryView::InList(list_id@), db@.links),
                )
            }),
    {
        match SmartListType::resolve(list_id) {
            Some(SmartListType::Trash) => listed(db, &TaskQuery::Trashed, TaskOrder::TrashNewest),
            Some(SmartListType::Completed) => listed(
                db,
                &TaskQuery::CompletedVisible,
                TaskOrder::CompletedRecent,
            ),
            Some(SmartListType::All) => listed(db, &TaskQuery::AllVisible, TaskOrder::Standard),
            Some(SmartListType::Today) => {
                let bounds = local_window_bounds(0);
                let r = Self::get_due_window(db, bounds.0, bounds.1);
                proof {
                    assert(r.deep_view() == in_order(
                        TaskOrder::Agenda,
                        chosen(
                            db@.tasks,
                            TaskQueryView::DueWindow(bounds.0, bounds.1),
                            db@.links,
                        ),
                    ));
                }
                r
            },
            Some(SmartListType::Week) => {
                let bounds = local_window_bounds(7);
                let r = Self::get_due_window(db, bounds.0, bounds.1);
                proof {
                    assert(r.deep_view() == in_order(
                        TaskOrder::Agenda,
                        chosen(
                            db@.tasks,
                            TaskQueryView::DueWindow(bounds.0, bounds.1),
                            db@.links,
                        ),
                    ));
                }
                r
            },
            Some(SmartListType::Inbox) => listed(
                db,
                &TaskQuery::InList(list_id.to_owned()),
                TaskOrder::Standard,
            ),
            None => listed(db, &TaskQuery::InList(list_id.to_owned()), TaskOrder::Standard),
        }
    }

    /// Sets or clears the deletion flag of one task at instant `now`.
    fn set_delete_flag(db: &mut Database, task_id: &str, deleted: bool, now: i64) -> (r: Result<
        (),
        AppError,
    >)
        requires
            old(db)@.wf(),
        ensures
            final(db)@.wf(),
            r is Ok <==> has_task(old(db)@.tasks, task_id@),
            r is Ok ==> final(db)@ == flag_deleted(old(db)@, task_id@, deleted, now),
            r is Err ==> final(db)@ == old(db)@ && fails_not_found(r, EntityKind::Task, task_id@),
    {
        let ghost pre = db@;
        match db.find_task(task_id) {
            Some(i) => {
                let mut row = db.tasks[i].clone();
                row.is_deleted = deleted;
                row.updated_at = now;
                db.tasks.set(i, row);
                proof {
                    let post = flag_deleted(pre, task_id@, deleted, now);
                    assert forall|m: int| 0 <= m < pre.tasks.len() implies db@.tasks[m]
                        == post.tasks[m] by {
                        if m != i as int {
                            if pre.tasks[m].id == task_id@ {
                                assert(pre.tasks[m].id != pre.tasks[i as int].id);
                            }
                        }
                    }
                    assert(db@.tasks =~= post.tasks);
                    assert(db@ =~= post);
                    lemma_same_shape_wf(pre, post);
                }
                Ok(())
            },
            None => Err(AppError::NotFound(EntityKind::Task, task_id.to_owned())),
        }
    }

    /// Soft-deletes a task at instant `now`: the row stays, marked
    /// deleted, with `updated_at` refreshed.
    pub fn delete_at(db: &mut Database, task_id: &str, now: i64) -> (r: Result<(), AppError>)
        requires
            old(db)@.wf(),
        ensures
            final(db)@.wf(),
            r is Ok <==> has_task(old(db)@.tasks, task_id@),
            r is Ok ==> final(db)@ == flag_deleted(old(db)@, task_id@, true, now),
            r is Err ==> final(db)@ == old(db)@ && fails_not_found(r, EntityKind::Task, task_id@),
    {
        Self::set_delete_flag(db, task_id, true, now)
    }

    /// Soft-deletes a task at the current instant.
    pub fn delete(db: &mut Database, task_id: &str) -> (r: Result<(), AppError>)
        requires
            old(db)@.wf(),
        ensures
            final(db)@.wf(),
            r is Ok <==> has_task(old(db)@.tasks, task_id@),
            r is Ok ==> exists|now: i64|
                final(db)@ == #[trigger] flag_deleted(old(db)@, task_id@, true, now),
            r is Err ==> final(db)@ == old(db)@ && fails_not_found(r, EntityKind::Task, task_id@),
    {
        let now: i64 = now_timestamp();
        Self::delete_at(db, task_id, now)
    }

    /// Restores a soft-deleted task at instant `now`: clears the flag and
    /// refreshes `updated_at`.
    pub fn undo_delete_at(db: &mut Database, task_id: &str, now: i64) -> (r: Result<(), AppError>)
        requires
            old(db)@.wf(),
        ensures
            final(db)@.wf(),
            r is Ok <==> has_task(old(db)@.tasks, task_id@),
            r is Ok ==> final(db)@ == flag_deleted(old(db)@, task_id@, false, now),
            r is Err ==> final(db)@ == old(db)@ && fails_not_found(r, EntityKind::Task, task_id@),
    {
        Self::set_delete_flag(db, task_id, false, now)
    }

    /// Restores a soft-deleted task at the current instant.
    pub fn undo_delete(db: &mut Database, task_id: &str) -> (r: Result<(), AppError>)
        requires
            old(db)@.wf(),
        ensures
            final(db)@.wf(),
            r is Ok <==> has_task(old(db)@.tasks, task_id@),
            r is Ok ==> exists|now: i64|
                final(db)@ == #[trigger] flag_deleted(old(db)@, task_id@, false, now),
            r is Err ==> final(db)@ == old(db)@ && fails_not_found(r, EntityKind::Task, task_id@),
    {
        let now: i64 = now_timestamp();
        Self::undo_delete_at(db, task_id, now)
    }

    /// Applies a batch of (task id, order index) assignments as one step:
    /// the store moves from its old state to the fully reordered one, with
    /// nothing in between; a pair naming an unknown id changes nothing.
    pub fn update_orders(db: &mut Database, orders: Vec<(String, i32)>) -> (r: Result<
        (),
        AppError,
    >)
        requires
            old(db)@.wf(),
        ensures
            final(db)@.wf(),
            r is Ok,
            final(db)@ == (DatabaseView {
                tasks: order_applied(old(db)@.tasks, orders@),
                ..old(db)@
            }),
    {
        let ghost pre = db@;
        let mut k: usize = 0;
        proof {
            assert(orders@.skip(0) =~= orders@);
        }
        while k < orders.len()
            invariant
                k <= orders.len(),
                pre.wf(),
                db@.lists == pre.lists,
                db@.tags == pre.tags,
                db@.links == pre.links,
                db@.tasks.len() == pre.tasks.len(),
                forall|i: int|
                    0 <= i < pre.tasks.len() ==> (#[trigger] db@.tasks[i]).id == (
                    #[trigger] pre.tasks[i]).id && db@.tasks[i].list_id == pre.tasks[i].list_id
                        && db@.tasks[i].parent_id == pre.tasks[i].parent_id && db@.tasks[i].wf()
                        && db@.tasks[i].tags == Seq::<Seq<char>>::empty(),
                order_applied(pre.tasks, orders@) == order_applied(
                    db@.tasks,
                    orders@.skip(k as int),
                ),
            decreases orders.len() - k,
        {
            let ghost cur = db@.tasks;
            let ghost rest = orders@.skip(k as int);
            proof {
                assert(rest[0] == orders@[k as int]);
                assert(rest.drop_first() =~= orders@.skip(k as int + 1));
                assert forall|a: int, b: int| 0 <= a < b < cur.len() implies (
                #[trigger] cur[a]).id != (#[trigger] cur[b]).id by {
                    assert(pre.tasks[a].id != pre.tasks[b].id);
                }
            }
            match db.find_task(orders[k].0.as_str()) {
                Some(i) => {
                    let mut row = db.tasks[i].clone();
                    row.order = orders[k].1;
                    db.tasks.set(i, row);
                    proof {
                        let id = orders@[k as int].0@;
                        assert forall|m: int| 0 <= m < cur.len() implies db@.tasks[m] == one_order(
                            cur,
                            id,
                            orders@[k as int].1,
                        )[m] by {
                            if m != i as int {
                                if cur[m].id == id {
                                    assert(cur[m].id != cur[i as int].id);
                                }
                            }
                        }
                        assert(db@.tasks =~= one_order(cur, id, orders@[k as int].1));
                    }
                },
                None => {
                    proof {
                        let id = orders@[k as int].0@;
                        assert forall|m: int| 0 <= m < cur.len() implies db@.tasks[m] == one_order(
                            cur,
                            id,
                            orders@[k as int].1,
                        )[m] by {
                            assert(!has_task(cur, id));
                            if cur[m].id == id {
                                assert(has_task(cur, id));
                            }
                        }
                        assert(db@.tasks =~= one_order(cur, id, orders@[k as int].1));
                    }
                },
            }
            k = k + 1;
        }
        proof {
            assert(orders@.skip(orders.len() as int).len() == 0);
            assert(order_applied(pre.tasks, orders@) == db@.tasks);
            assert(db@ =~= (DatabaseView { tasks: order_applied(pre.tasks, orders@), ..pre }));
            lemma_same_shape_wf(pre, db@);
        }
        Ok(())
    }
}

impl TaskRepository {
    /// Inserts one association row per tag id that names an existing tag
    /// and is not linked yet; other ids are silently dropped.
    fn link_tags(db: &mut Database, task_id: &str, tags: &Vec<String>)
        requires
            old(db)@.wf(),
            has_task(old(db)@.tasks, task_id@),
        ensures
            final(db)@.wf(),
            final(db)@ == (DatabaseView {
                links: linked(old(db)@.links, task_id@, tags.deep_view(), old(db)@.tags),
                ..old(db)@
            }),
    {
        let ghost pre = db@;
        let ghost tagsv = tags.deep_view();
        let mut k: usize = 0;
        proof {
            assert(tagsv.skip(0) =~= tagsv);
        }
        while k < tags.len()
            invariant
                k <= tags.len(),
                pre.wf(),
                has_task(pre.tasks, task_id@),
                tagsv == tags.deep_view(),
                db@.tasks == pre.tasks,
                db@.lists == pre.lists,
                db@.tags == pre.tags,
                db@.links_unique(),
                forall|i: int|
                    0 <= i < db@.links.len() ==> has_task(
                        db@.tasks,
                        (#[trigger] db@.links[i]).task_id,
                    ) && has_tag(db@.tags, db@.links[i].tag_id),
                linked(pre.links, task_id@, tagsv, pre.tags) == linked(
                    db@.links,
                    task_id@,
                    tagsv.skip(k as int),
                    pre.tags,
                ),
            decreases tags.len() - k,
        {
            let ghost cur = db@.links;
            let ghost rest = tagsv.skip(k as int);
            proof {
                assert(rest[0] == tagsv[k as int]);
                assert(rest.drop_first() =~= tagsv.skip(k as int + 1));
            }
            let tag_ok: bool = match db.find_tag(tags[k].as_str()) {
                Some(i) => {
                    proof {
                        assert(db@.tags[i as int].id == tagsv[k as int]);
                    }
                    true
                },
                None => false,
            };
            let dup: bool = db.link_present(task_id, tags[k].as_str());
            if tag_ok && !dup {
                db.links.push(TaskTag { task_id: task_id.to_owned(), tag_id: tags[k].clone() });
                proof {
                    assert(db@.links =~= cur.push(
                        LinkView { task_id: task_id@, tag_id: tagsv[k as int] },
                    ));
                }
            }
            k = k + 1;
        }
        proof {
            assert(tagsv.skip(tags.len() as int).len() == 0);
            assert(db@ =~= (DatabaseView {
                links: linked(pre.links, task_id@, tagsv, pre.tags),
                ..pre
            }));
        }
    }

    /// Drops every association row of one task.
    fn unlink_task(db: &mut Database, task_id: &str)
        requires
            old(db)@.wf(),
        ensures
            final(db)@.wf(),
            final(db)@ == (DatabaseView {
                links: without_task_links(old(db)@.links, task_id@),
                ..old(db)@
            }),
    {
        let ghost pre = db@;
        let mut kept: Vec<TaskTag> = Vec::new();
        let mut j: usize = 0;
        proof {
            assert(pre.links.take(0) =~= Seq::<LinkView>::empty());
            assert(kept.deep_view() =~= without_task_links(pre.links.take(0), task_id@));
        }
        while j < db.links.len()
            invariant
                j <= db.links.len(),
                pre.wf(),
                db@ == pre,
                kept.deep_view() == without_task_links(pre.links.take(j as int), task_id@),
                forall|a: int|
                    0 <= a < kept.deep_view().len() ==> exists|m: int|
                        0 <= m < j && pre.links[m] == #[trigger] kept.deep_view()[a],
            decreases db.links.len() - j,
        {
            let ghost before = kept.deep_view();
            if !str_eq(db.links[j].task_id.as_str(), task_id) {
                kept.push(db.links[j].clone());
                proof {
                    assert(kept.deep_view() =~= before.push(pre.links[j as int]));
                }
            }
            proof {
                let stepped = pre.links.take(j as int + 1);
                assert(stepped.drop_last() =~= pre.links.take(j as int));
                assert(stepped.last() == pre.links[j as int]);
                assert(kept.deep_view() =~= without_task_links(stepped, task_id@));
            }
            j = j + 1;
        }
        proof {
            assert(pre.links.take(db.links.len() as int) =~= pre.links);
        }
        db.links = kept;
        proof {
            let post = DatabaseView { links: without_task_links(pre.links, task_id@), ..pre };
            assert(db@ =~= post);
            assert forall|a: int, b: int| 0 <= a < b < post.links.len() implies !((
            #[trigger] post.links[a]).task_id == (#[trigger] post.links[b]).task_id
                && post.links[a].tag_id == post.links[b].tag_id) by {
                let ma = choose|m: int| 0 <= m < pre.links.len() && pre.links[m] == post.links[a];
                let mb = choose|m: int| 0 <= m < pre.links.len() && pre.links[m] == post.links[b];
                lemma_without_links_distinct(pre.links, task_id@, a, b);
            }
            assert forall|a: int| 0 <= a < post.links.len() implies has_task(
                post.tasks,
                (#[trigger] post.links[a]).task_id,
            ) && has_tag(post.tags, post.links[a].tag_id) by {
                let m = choose|m: int| 0 <= m < pre.links.len() && pre.links[m] == post.links[a];
                assert(has_task(pre.tasks, pre.links[m].task_id));
            }
            assert(db@.wf());
        }
    }
}

/// Two positions of the filtered association table never repeat a pair.
proof fn lemma_without_links_distinct(links: Seq<LinkView>, task_id: Seq<char>, a: int, b: int)
    requires
        forall|x: int, y: int|
            0 <= x < y < links.len() ==> !((#[trigger] links[x]).task_id == (
            #[trigger] links[y]).task_id && links[x].tag_id == links[y].tag_id),
        0 <= a < b < without_task_links(links, task_id).len(),
    ensures
        !(without_task_links(links, task_id)[a].task_id == without_task_links(links, task_id)[b].task_id
            && without_task_links(links, task_id)[a].tag_id == without_task_links(
            links,
            task_id,
        )[b].tag_id),
    decreases links.len(),
{
    let r = without_task_links(links, task_id);
    let rest = without_task_links(links.drop_last(), task_id);
    lemma_without_links_from(links.drop_last(), task_id);
    if b < rest.len() {
        lemma_without_links_distinct(links.drop_last(), task_id, a, b);
    } else {
        assert(r[b] == links.last());
        assert(r[a] == rest[a]);
        let m = choose|m: int|
            0 <= m < links.drop_last().len() && links.drop_last()[m] == rest[a];
        assert(links[m] == r[a]);
        assert(!(links[m].task_id == links[links.len() - 1].task_id && links[m].tag_id
            == links[links.len() - 1].tag_id));
    }
}

/// Every row the filter keeps comes from the source table.
proof fn lemma_without_links_from(links: Seq<LinkView>, task_id: Seq<char>)
    ensures
        forall|k: int|
            0 <= k < without_task_links(links, task_id).len() ==> exists|m: int|
                0 <= m < links.len() && links[m] == #[trigger] without_task_links(links, task_id)[k],
    decreases links.len(),
{
    let r = without_task_links(links, task_id);
    if links.len() > 0 {
        lemma_without_links_from(links.drop_last(), task_id);
        let rest = without_task_links(links.drop_last(), task_id);
        assert forall|k: int| 0 <= k < r.len() implies exists|m: int|
            0 <= m < links.len() && links[m] == #[trigger] r[k] by {
            if k < rest.len() {
                assert(r[k] == rest[k]);
                let m = choose|m: int|
                    0 <= m < links.drop_last().len() && links.drop_last()[m] == rest[k];
                assert(links[m] == r[k]);
            } else {
                assert(r[k] == links.last());
                assert(links[links.len() - 1] == r[k]);
            }
        }
    }
}

impl TaskRepository {
    /// Creates a task: inserts the bare row, then one association row per
    /// valid tag id (invalid ids are silently dropped), and returns the
    /// entity re-read from the store, its tag set as persisted.
    pub fn create(db: &mut Database, task: &Task) -> (r: Result<Task, AppError>)
        requires
            old(db)@.wf(),
            task@.wf(),
        ensures
            final(db)@.wf(),
            r is Ok <==> insertable(old(db)@, task@),
            r is Ok ==> final(db)@ == with_created(old(db)@, task@),
            r matches Ok(t) ==> t@ == hydrated(task@, final(db)@.links),
            r is Err ==> final(db)@ == old(db)@,
            has_task(old(db)@.tasks, task@.id) ==> fails_conflict(r, EntityKind::Task, task@.id),
            !has_task(old(db)@.tasks, task@.id) && !has_list(old(db)@.lists, task@.list_id)
                ==> fails_storage(r, EntityKind::List, task@.list_id),
            !has_task(old(db)@.tasks, task@.id) && has_list(old(db)@.lists, task@.list_id)
                && task@.parent_id is Some && !has_task(old(db)@.tasks, task@.parent_id->Some_0)
                ==> fails_storage(r, EntityKind::Task, task@.parent_id->Some_0),
    {
        let ghost pre = db@;
        if db.find_task(task.id.as_str()).is_some() {
            return Err(AppError::Conflict(EntityKind::Task, task.id.clone()));
        }
        if db.find_list(task.list_id.as_str()).is_none() {
            return Err(AppError::Storage(EntityKind::List, task.list_id.clone()));
        }
        match &task.parent_id {
            Some(p) => {
                if db.find_task(p.as_str()).is_none() {
                    return Err(AppError::Storage(EntityKind::Task, p.clone()));
                }
                proof {
                    assert(task@.parent_id == Some(p@));
                    assert(has_task(pre.tasks, p@));
                }
            },
            None => {},
        }
        let mut row = task.clone();
        row.tags = Vec::new();
        proof {
            assert(row@ =~= bare(task@));
        }
        db.tasks.push(row);
        proof {
            assert(db@.tasks =~= pre.tasks.push(bare(task@)));
            let post = db@;
            assert forall|i: int, j: int| 0 <= i < j < post.tasks.len() implies (
            #[trigger] post.tasks[i]).id != (#[trigger] post.tasks[j]).id by {
                if j < post.tasks.len() - 1 {
                    assert(pre.tasks[i].id != pre.tasks[j].id);
                } else {
                    if pre.tasks[i].id == task@.id {
                        assert(has_task(pre.tasks, task@.id));
                    }
                }
            }
            assert forall|i: int|
                0 <= i < post.tasks.len() implies ((#[trigger] post.tasks[i]).parent_id
                matches Some(p) ==> has_task(post.tasks, p)) by {
                if post.tasks[i].parent_id is Some {
                    let p = post.tasks[i].parent_id->Some_0;
                    if i < post.tasks.len() - 1 {
                        assert(has_task(pre.tasks, p));
                        let w = choose|w: int|
                            0 <= w < pre.tasks.len() && #[trigger] pre.tasks[w].id == p;
                        assert(post.tasks[w].id == p);
                    } else {
                        let w = choose|w: int|
                            0 <= w < pre.tasks.len() && #[trigger] pre.tasks[w].id == p;
                        assert(post.tasks[w].id == p);
                    }
                }
            }
            assert forall|i: int| 0 <= i < post.links.len() implies has_task(
                post.tasks,
                (#[trigger] post.links[i]).task_id,
            ) && has_tag(post.tags, post.links[i].tag_id) by {
                assert(has_task(pre.tasks, pre.links[i].task_id));
                let w = choose|w: int|
                    0 <= w < pre.tasks.len() && #[trigger] pre.tasks[w].id == pre.links[i].task_id;
                assert(post.tasks[w].id == pre.links[i].task_id);
            }
            assert(has_task(db@.tasks, task@.id)) by {
                assert(db@.tasks[db@.tasks.len() - 1].id == task@.id);
            }
            assert(db@.wf());
        }
        Self::link_tags(db, task.id.as_str(), &task.tags);
        let out_tags = db.task_tag_ids(task.id.as_str());
        let mut out = task.clone();
        out.tags = out_tags;
        proof {
            assert(task.tags.deep_view() == task@.tags);
            assert(db@ =~= with_created(pre, task@));
            assert(out@ =~= hydrated(task@, db@.links));
        }
        Ok(out)
    }

    /// Updates a task: overwrites every mutable column by id (identity and
    /// creation stamp are immutable), drops and reinserts its tag
    /// associations from the entity's tag list, and returns the entity
    /// hydrated with the persisted tag set.
    pub fn update(db: &mut Database, task: &Task) -> (r: Result<Task, AppError>)
        requires
            old(db)@.wf(),
            task@.wf(),
        ensures
            final(db)@.wf(),
            r is Ok <==> has_task(old(db)@.tasks, task@.id) && updatable(old(db)@, task@),
            r is Ok ==> final(db)@ == with_updated(old(db)@, task@),
            r matches Ok(t) ==> t@ == hydrated(task@, final(db)@.links),
            r is Err ==> final(db)@ == old(db)@,
            !has_task(old(db)@.tasks, task@.id) ==> fails_not_found(r, EntityKind::Task, task@.id),
            has_task(old(db)@.tasks, task@.id) && !has_list(old(db)@.lists, task@.list_id)
                ==> fails_storage(r, EntityKind::List, task@.list_id),
            has_task(old(db)@.tasks, task@.id) && has_list(old(db)@.lists, task@.list_id)
                && task@.parent_id is Some && !has_task(old(db)@.tasks, task@.parent_id->Some_0)
                ==> fails_storage(r, EntityKind::Task, task@.parent_id->Some_0),
    {
        let ghost pre = db@;
        let idx: usize = match db.find_task(task.id.as_str()) {
            Some(i) => i,
            None => {
                return Err(AppError::NotFound(EntityKind::Task, task.id.clone()));
            },
        };
        if db.find_list(task.list_id.as_str()).is_none() {
            return Err(AppError::Storage(EntityKind::List, task.list_id.clone()));
        }
        match &task.parent_id {
            Some(p) => {
                if db.find_task(p.as_str()).is_none() {
                    return Err(AppError::Storage(EntityKind::Task, p.clone()));
                }
                proof {
                    assert(task@.parent_id == Some(p@));
                    assert(has_task(pre.tasks, p@));
                }
            },
            None => {},
        }
        let created: i64 = db.tasks[idx].created_at;
        let mut row = task.clone();
        row.tags = Vec::new();
        row.created_at = created;
        db.tasks.set(idx, row);
        proof {
            let target = with_updated(pre, task@);
            assert forall|m: int| 0 <= m < pre.tasks.len() implies db@.tasks[m]
                == target.tasks[m] by {
                if m == idx as int {
                    assert(db@.tasks[m] =~= merged(pre.tasks[m], task@));
                } else {
                    if pre.tasks[m].id == task@.id {
                        assert(pre.tasks[m].id != pre.tasks[idx as int].id);
                    }
                }
            }
            assert(db@.tasks =~= target.tasks);
            lemma_same_ids(pre.tasks, db@.tasks);
            let post = db@;
            assert forall|i: int, j: int| 0 <= i < j < post.tasks.len() implies (
            #[trigger] post.tasks[i]).id != (#[trigger] post.tasks[j]).id by {
                assert(pre.tasks[i].id != pre.tasks[j].id);
            }
            assert forall|i: int| 0 <= i < post.tasks.len() implies has_list(
                post.lists,
                (#[trigger] post.tasks[i]).list_id,
            ) by {
                if i != idx as int {
                    assert(has_list(pre.lists, pre.tasks[i].list_id));
                }
            }
            assert forall|i: int|
                0 <= i < post.tasks.len() implies ((#[trigger] post.tasks[i]).parent_id
                matches Some(p) ==> has_task(post.tasks, p)) by {
                if post.tasks[i].parent_id is Some {
                    let p = post.tasks[i].parent_id->Some_0;
                    if i != idx as int {
                        assert(pre.tasks[i].parent_id == Some(p));
                        assert(has_task(pre.tasks, p));
                    }
                    assert(has_task(post.tasks, p));
                }
            }
            assert forall|i: int| 0 <= i < post.links.len() implies has_task(
                post.tasks,
                (#[trigger] post.links[i]).task_id,
            ) && has_tag(post.tags, post.links[i].tag_id) by {
                assert(has_task(pre.tasks, pre.links[i].task_id));
            }
            assert forall|i: int|
                0 <= i < post.tasks.len() implies (#[trigger] post.tasks[i]).wf()
                && post.tasks[i].tags == Seq::<Seq<char>>::empty() by {
                assert(post.tasks[i].id == post.tasks[i].id);
                if i != idx as int {
                    assert(pre.tasks[i].wf());
                }
            }
            assert(post.wf());
            assert(has_task(db@.tasks, task@.id)) by {
                assert(db@.tasks[idx as int].id == task@.id);
            }
        }
        Self::unlink_task(db, task.id.as_str());
        Self::link_tags(db, task.id.as_str(), &task.tags);
        let out_tags = db.task_tag_ids(task.id.as_str());
        let mut out = task.clone();
        out.tags = out_tags;
        proof {
            assert(task.tags.deep_view() == task@.tags);
            assert(db@ =~= with_updated(pre, task@));
            assert(out@ =~= hydrated(task@, db@.links));
        }
        Ok(out)
    }

    /// Hard-deletes a task by id: the row goes, every task whose parent
    /// chain reaches it goes, and so do their association rows. Not
    /// reversible through the soft-delete path.
    pub fn delete_permanently(db: &mut Database, task_id: &str) -> (r: Result<(), AppError>)
        requires
            old(db)@.wf(),
        ensures
            final(db)@.wf(),
            r is Ok <==> has_task(old(db)@.tasks, task_id@),
            r is Ok ==> final(db)@ == purged(old(db)@, PurgeSeedView::ById(task_id@)),
            r is Err ==> final(db)@ == old(db)@ && fails_not_found(r, EntityKind::Task, task_id@),
    {
        match db.find_task(task_id) {
            Some(_) => {
                purge(db, &PurgeSeed::ById(task_id.to_owned()));
                Ok(())
            },
            None => Err(AppError::NotFound(EntityKind::Task, task_id.to_owned())),
        }
    }

    /// Hard-deletes every task in the trash, with the same cascade; a
    /// no-op when the trash is empty.
    pub fn empty_trash(db: &mut Database) -> (r: Result<(), AppError>)
        requires
            old(db)@.wf(),
        ensures
            final(db)@.wf(),
            r is Ok,
            final(db)@ == purged(old(db)@, PurgeSeedView::Trashed),
    {
        purge(db, &PurgeSeed::Trashed);
        Ok(())
    }
}

/// A child row stamped complete with its parent's completion instant.
pub open spec fn child_stamped(c: TaskView, done_at: i64) -> TaskView {
    TaskView { completed: true, completed_at: Some(done_at), updated_at: done_at, ..c }
}

/// The store after each currently-incomplete child is rewritten as
/// completed, walking the children in listing order.
pub open spec fn cascade_children(db: DatabaseView, kids: Seq<TaskView>, done_at: i64) -> DatabaseView
    decreases kids.len(),
{
    if kids.len() == 0 {
        db
    } else {
        let next = if kids[0].completed {
            db
        } else {
            with_updated(db, child_stamped(kids[0], done_at))
        };
        cascade_children(next, kids.drop_first(), done_at)
    }
}

/// The toggled entity a toggle rewrites: the stored row, hydrated, with
/// its completion state flipped at `now`.
pub open spec fn toggle_entity(db: DatabaseView, id: Seq<char>, now: i64) -> TaskView {
    hydrated(task_at(db.tasks, id), db.links).toggled(now)
}

/// The children listing the completion cascade walks.
pub open spec fn toggle_children(after: DatabaseView, id: Seq<char>) -> Seq<TaskView> {
    in_order(TaskOrder::Standard, chosen(after.tasks, TaskQueryView::ChildrenOf(id), after.links))
}

/// The store after a toggle: the target rewritten; when it turned
/// complete, its direct incomplete children rewritten too.
pub open spec fn with_toggled(db: DatabaseView, id: Seq<char>, now: i64) -> DatabaseView {
    let t1 = toggle_entity(db, id, now);
    let after = with_updated(db, t1);
    if t1.completed {
        cascade_children(after, toggle_children(after, id), now)
    } else {
        after
    }
}

impl TaskRepository {
    /// Toggles a task's completion at instant `now` and persists it. When
    /// the task turns complete, every direct, currently-incomplete child
    /// is completed with the same stamps — one level, not recursive. When
    /// it turns incomplete, children are left as they are.
    pub fn toggle_completed_at(db: &mut Database, task_id: &str, now: i64) -> (r: Result<
        Task,
        AppError,
    >)
        requires
            old(db)@.wf(),
        ensures
            final(db)@.wf(),
            r is Ok <==> has_task(old(db)@.tasks, task_id@),
            r is Ok ==> final(db)@ == with_toggled(old(db)@, task_id@, now),
            r matches Ok(t) ==> t@ == hydrated(
                toggle_entity(old(db)@, task_id@, now),
                with_updated(old(db)@, toggle_entity(old(db)@, task_id@, now)).links,
            ),
            r is Err ==> final(db)@ == old(db)@ && fails_not_found(r, EntityKind::Task, task_id@),
    {
        let ghost pre = db@;
        let mut task = match Self::get_by_id(db, task_id) {
            Ok(t) => t,
            Err(e) => {
                return Err(e);
            },
        };
        task.toggle_completed_at(now);
        let ghost t1 = toggle_entity(pre, task_id@, now);
        proof {
            assert(task@ == t1);
            let w = choose|w: int| 0 <= w < pre.tasks.len() && #[trigger] pre.tasks[w].id == task_id@;
            lemma_task_at(pre.tasks, w);
            assert(t1.id == task_id@);
            assert(has_task(pre.tasks, t1.id));
            assert(has_list(pre.lists, t1.list_id));
            if t1.parent_id is Some {
                assert(has_task(pre.tasks, t1.parent_id->Some_0));
            }
        }
        let upd = match Self::update(db, &task) {
            Ok(u) => u,
            Err(_) => unreached(),
        };
        let ghost after = db@;
        proof {
            assert(after == with_updated(pre, t1));
            assert(upd@ == hydrated(t1, after.links));
        }
        if upd.completed {
            let kids = Self::get_by_parent(db, task_id);
            let ghost kidsv = kids.deep_view();
            proof {
                assert(kidsv == toggle_children(after, task_id@));
                lemma_in_order_member(
                    TaskOrder::Standard,
                    chosen(after.tasks, TaskQueryView::ChildrenOf(task_id@), after.links),
                );
                lemma_chosen_member(
                    after.tasks,
                    TaskQueryView::ChildrenOf(task_id@),
                    after.links,
                );
                assert(kidsv.skip(0) =~= kidsv);
                assert(has_task(after.tasks, task_id@)) by {
                    let w = choose|w: int|
                        0 <= w < pre.tasks.len() && #[trigger] pre.tasks[w].id == task_id@;
                    assert(after.tasks[w].id == task_id@);
                }
            }
            let mut i: usize = 0;
            while i < kids.len()
                invariant
                    i <= kids.len(),
                    after.wf(),
                    kidsv == kids.deep_view(),
                    forall|x: int|
                        0 <= x < kidsv.len() ==> comes_from(
                            after.tasks,
                            TaskQueryView::ChildrenOf(task_id@),
                            after.links,
                            #[trigger] kidsv[x],
                        ),
                    upd@.completed_at == Some(now),
                    upd@.updated_at == now,
                    has_task(after.tasks, task_id@),
                    db@.wf(),
                    db@.lists == after.lists,
                    db@.tags == after.tags,
                    db@.tasks.len() == after.tasks.len(),
                    forall|m: int|
                        0 <= m < after.tasks.len() ==> (#[trigger] db@.tasks[m]).id == (
                        #[trigger] after.tasks[m]).id && db@.tasks[m].list_id
                            == after.tasks[m].list_id && db@.tasks[m].parent_id
                            == after.tasks[m].parent_id,
                    cascade_children(after, kidsv, now) == cascade_children(
                        db@,
                        kidsv.skip(i as int),
                        now,
                    ),
                decreases kids.len() - i,
            {
                let ghost cur = db@;
                let ghost rest = kidsv.skip(i as int);
                proof {
                    assert(rest[0] == kidsv[i as int]);
                    assert(rest.drop_first() =~= kidsv.skip(i as int + 1));
                }
                if !kids[i].completed {
                    let mut c = kids[i].clone();
                    c.completed = true;
                    c.completed_at = upd.completed_at;
                    c.updated_at = upd.updated_at;
                    proof {
                        assert(c@ =~= child_stamped(kidsv[i as int], now));
                        let m = choose|m: int|
                            0 <= m < after.tasks.len() && picks(
                                TaskQueryView::ChildrenOf(task_id@),
                                #[trigger] after.tasks[m],
                                after.links,
                            ) && hydrated(after.tasks[m], after.links) == kidsv[i as int];
                        assert(c@.id == after.tasks[m].id);
                        assert(db@.tasks[m].id == c@.id);
                        assert(has_task(db@.tasks, c@.id));
                        assert(has_list(after.lists, after.tasks[m].list_id));
                        assert(c@.parent_id == Some(task_id@));
                        assert(has_task(db@.tasks, task_id@)) by {
                            let w = choose|w: int|
                                0 <= w < after.tasks.len() && #[trigger] after.tasks[w].id
                                    == task_id@;
                            assert(db@.tasks[w].id == task_id@);
                        }
                        assert(c@.wf());
                    }
                    let stepped = match Self::update(db, &c) {
                        Ok(u) => u,
                        Err(_) => unreached(),
                    };
                    proof {
                        assert(db@ == with_updated(cur, c@));
                        assert(!rest[0].completed);
                        assert(cascade_children(cur, rest, now) == cascade_children(
                            db@,
                            rest.drop_first(),
                            now,
                        ));
                        let m = choose|m: int|
                            0 <= m < after.tasks.len() && picks(
                                TaskQueryView::ChildrenOf(task_id@),
                                #[trigger] after.tasks[m],
                                after.links,
                            ) && hydrated(after.tasks[m], after.links) == kidsv[i as int];
                        assert forall|x: int| 0 <= x < after.tasks.len() implies (
                        #[trigger] db@.tasks[x]).id == (#[trigger] after.tasks[x]).id
                            && db@.tasks[x].list_id == after.tasks[x].list_id
                            && db@.tasks[x].parent_id == after.tasks[x].parent_id by {
                            if cur.tasks[x].id == c@.id {
                                if x != m {
                                    assert(after.tasks[x].id == after.tasks[m].id);
                                    if x < m {
                                        assert(after.tasks[x].id != after.tasks[m].id);
                                    } else {
                                        assert(after.tasks[m].id != after.tasks[x].id);
                                    }
                                }
                                assert(x == m);
                                assert(db@.tasks[x] == merged(cur.tasks[x], c@));
                            }
                        }
                    }
                } else {
                    proof {
                        assert(rest[0].completed);
                        assert(cascade_children(cur, rest, now) == cascade_children(
                            db@,
                            rest.drop_first(),
                            now,
                        ));
                    }
                }
                i = i + 1;
            }
            proof {
                assert(kidsv.skip(kids.len() as int).len() == 0);
                assert(cascade_children(db@, kidsv.skip(kids.len() as int), now) == db@);
                assert(db@ == cascade_children(after, kidsv, now));
                assert(t1.completed);
                assert(db@ == with_toggled(pre, task_id@, now));
            }
        } else {
            proof {
                assert(!t1.completed);
                assert(db@ == with_toggled(pre, task_id@, now));
            }
        }
        Ok(upd)
    }

    /// Toggles a task's completion at the current instant.
    pub fn toggle_completed(db: &mut Database, task_id: &str) -> (r: Result<Task, AppError>)
        requires
            old(db)@.wf(),
        ensures
            final(db)@.wf(),
            r is Ok <==> has_task(old(db)@.tasks, task_id@),
            r matches Ok(t) ==> exists|now: i64|
                final(db)@ == #[trigger] with_toggled(old(db)@, task_id@, now) && t@ == hydrated(
                    toggle_entity(old(db)@, task_id@, now),
                    with_updated(old(db)@, toggle_entity(old(db)@, task_id@, now)).links,
                ),
            r is Err ==> final(db)@ == old(db)@ && fails_not_found(r, EntityKind::Task, task_id@),
    {
        let now: i64 = now_timestamp();
        Self::toggle_completed_at(db, task_id, now)
    }
}

} // verus!
