//! Store-level laws: proofs that the repository operations interact the
//! way the soft-delete, trash, and tag-reconciliation semantics promise.
//! Each law is stated over the same state transformers the repository
//! contracts use.

use vstd::prelude::*;
use crate::db::connection::{
    has_link, has_tag, has_task, hydrated, lemma_task_at, task_at, DatabaseView, LinkView,
};
use crate::db::query::{
    chosen, comes_from, lemma_chosen_complete, lemma_chosen_member, picks, TaskQueryView,
};
use crate::db::sorting::{in_order, lemma_in_order_contains, lemma_in_order_member, TaskOrder};
use crate::db::task_repo::{
    cascade_children, child_stamped, flag_deleted, linked, one_order, order_applied,
    toggle_children, toggle_entity, with_toggled, with_updated, without_task_links,
};
use crate::models::task::TaskView;
use crate::models::tag::TagView;

verus! {

/// The rows a caller sees through `get_all`.
pub open spec fn visible_listing(db: DatabaseView) -> Seq<TaskView> {
    in_order(TaskOrder::Standard, chosen(db.tasks, TaskQueryView::AllVisible, db.links))
}

/// The rows a caller sees through `get_by_list` for a user-list id.
pub open spec fn list_listing(db: DatabaseView, list_id: Seq<char>) -> Seq<TaskView> {
    in_order(TaskOrder::Standard, chosen(db.tasks, TaskQueryView::InList(list_id), db.links))
}

/// The rows a caller sees through `get_by_tag`.
pub open spec fn tag_listing(db: DatabaseView, tag_id: Seq<char>) -> Seq<TaskView> {
    in_order(TaskOrder::Standard, chosen(db.tasks, TaskQueryView::WithTag(tag_id), db.links))
}

/// The rows a caller sees through `get_by_parent`.
pub open spec fn parent_listing(db: DatabaseView, parent_id: Seq<char>) -> Seq<TaskView> {
    in_order(TaskOrder::Standard, chosen(db.tasks, TaskQueryView::ChildrenOf(parent_id), db.links))
}

/// The rows a caller sees through the trash smart list.
pub open spec fn trash_listing(db: DatabaseView) -> Seq<TaskView> {
    in_order(TaskOrder::TrashNewest, chosen(db.tasks, TaskQueryView::Trashed, db.links))
}

/// Every stored task is completed exactly when it carries a completion
/// time — the invariant every repository operation re-establishes.
pub proof fn lemma_completion_time_consistent(db: DatabaseView, i: int)
    requires
        db.wf(),
        0 <= i < db.tasks.len(),
    ensures
        db.tasks[i].completed <==> db.tasks[i].completed_at is Some,
{
}

/// A row of a listing built over a store in which the only row carrying
/// `id` is soft-deleted never carries `id` itself.
proof fn lemma_absent_when_hidden(
    db: DatabaseView,
    q: TaskQueryView,
    k: TaskOrder,
    id: Seq<char>,
    x: int,
)
    requires
        db.tasks_unique(),
        forall|m: int|
            0 <= m < db.tasks.len() && (#[trigger] db.tasks[m]).id == id ==> db.tasks[m].is_deleted,
        q != TaskQueryView::Trashed,
        0 <= x < in_order(k, chosen(db.tasks, q, db.links)).len(),
    ensures
        in_order(k, chosen(db.tasks, q, db.links))[x].id != id,
{
    let sel = chosen(db.tasks, q, db.links);
    let listing = in_order(k, sel);
    lemma_in_order_member(k, sel);
    lemma_chosen_member(db.tasks, q, db.links);
    let w = choose|w: int| 0 <= w < sel.len() && sel[w] == listing[x];
    assert(comes_from(db.tasks, q, db.links, sel[w]));
    let m = choose|m: int|
        0 <= m < db.tasks.len() && picks(q, #[trigger] db.tasks[m], db.links) && hydrated(
            db.tasks[m],
            db.links,
        ) == sel[w];
    if listing[x].id == id {
        assert(db.tasks[m].id == id);
        assert(db.tasks[m].is_deleted);
        assert(!picks(q, db.tasks[m], db.links));
    }
}

/// Soft deletion hides a task from every normal listing, keeps it
/// reachable by direct lookup, and surfaces it in the trash view.
pub proof fn lemma_soft_delete_hides(db: DatabaseView, id: Seq<char>, now: i64)
    requires
        db.wf(),
        has_task(db.tasks, id),
    ensures
        ({
            let after = flag_deleted(db, id, true, now);
            let row = TaskView { is_deleted: true, updated_at: now, ..task_at(db.tasks, id) };
            &&& forall|x: int|
                0 <= x < visible_listing(after).len() ==> (#[trigger] visible_listing(after)[x]).id
                    != id
            &&& forall|l: Seq<char>, x: int|
                0 <= x < list_listing(after, l).len() ==> (#[trigger] list_listing(
                    after,
                    l,
                )[x]).id != id
            &&& forall|g: Seq<char>, x: int|
                0 <= x < tag_listing(after, g).len() ==> (#[trigger] tag_listing(after, g)[x]).id
                    != id
            &&& forall|p: Seq<char>, x: int|
                0 <= x < parent_listing(after, p).len() ==> (#[trigger] parent_listing(
                    after,
                    p,
                )[x]).id != id
            &&& has_task(after.tasks, id)
            &&& task_at(after.tasks, id) == row
            &&& trash_listing(after).contains(hydrated(row, after.links))
        }),
{
    let after = flag_deleted(db, id, true, now);
    let w = choose|w: int| 0 <= w < db.tasks.len() && #[trigger] db.tasks[w].id == id;
    let row = TaskView { is_deleted: true, updated_at: now, ..task_at(db.tasks, id) };
    lemma_task_at(db.tasks, w);
    assert(after.tasks[w] =~= row);
    assert forall|m: int| 0 <= m < after.tasks.len() implies (#[trigger] after.tasks[m]).id
        == db.tasks[m].id by {}
    assert forall|a: int, b: int| 0 <= a < b < after.tasks.len() implies (
    #[trigger] after.tasks[a]).id != (#[trigger] after.tasks[b]).id by {
        assert(db.tasks[a].id != db.tasks[b].id);
    }
    lemma_task_at(after.tasks, w);
    assert forall|m: int|
        0 <= m < after.tasks.len() && (#[trigger] after.tasks[m]).id == id implies
        after.tasks[m].is_deleted by {
        if m != w {
            assert(db.tasks[m].id != db.tasks[w].id);
        }
    }
    assert forall|x: int| 0 <= x < visible_listing(after).len() implies (
    #[trigger] visible_listing(after)[x]).id != id by {
        lemma_absent_when_hidden(after, TaskQueryView::AllVisible, TaskOrder::Standard, id, x);
    }
    assert forall|l: Seq<char>, x: int| 0 <= x < list_listing(after, l).len() implies (
    #[trigger] list_listing(after, l)[x]).id != id by {
        lemma_absent_when_hidden(after, TaskQueryView::InList(l), TaskOrder::Standard, id, x);
    }
    assert forall|g: Seq<char>, x: int| 0 <= x < tag_listing(after, g).len() implies (
    #[trigger] tag_listing(after, g)[x]).id != id by {
        lemma_absent_when_hidden(after, TaskQueryView::WithTag(g), TaskOrder::Standard, id, x);
    }
    assert forall|p: Seq<char>, x: int| 0 <= x < parent_listing(after, p).len() implies (
    #[trigger] parent_listing(after, p)[x]).id != id by {
        lemma_absent_when_hidden(after, TaskQueryView::ChildrenOf(p), TaskOrder::Standard, id, x);
    }
    assert(picks(TaskQueryView::Trashed, after.tasks[w], after.links));
    lemma_chosen_complete(after.tasks, TaskQueryView::Trashed, after.links, w);
    lemma_in_order_contains(
        TaskOrder::TrashNewest,
        chosen(after.tasks, TaskQueryView::Trashed, after.links),
        hydrated(after.tasks[w], after.links),
    );
}

/// Soft-deleting and then restoring a task is a no-op on every field but
/// `updated_at`, leaves every other row untouched, and the restored task
/// shows up in `get_all` again.
pub proof fn lemma_delete_undo_round_trip(db: DatabaseView, id: Seq<char>, n1: i64, n2: i64)
    requires
        db.wf(),
        has_task(db.tasks, id),
        !task_at(db.tasks, id).is_deleted,
    ensures
        ({
            let back = flag_deleted(flag_deleted(db, id, true, n1), id, false, n2);
            &&& back.lists == db.lists
            &&& back.tags == db.tags
            &&& back.links == db.links
            &&& back.tasks.len() == db.tasks.len()
            &&& forall|i: int|
                0 <= i < db.tasks.len() && (#[trigger] db.tasks[i]).id != id ==> back.tasks[i]
                    == db.tasks[i]
            &&& forall|i: int|
                0 <= i < db.tasks.len() && (#[trigger] db.tasks[i]).id == id ==> back.tasks[i]
                    == (TaskView { updated_at: n2, ..db.tasks[i] })
            &&& visible_listing(back).contains(
                hydrated(TaskView { updated_at: n2, ..task_at(db.tasks, id) }, back.links),
            )
        }),
{
    let mid = flag_deleted(db, id, true, n1);
    let back = flag_deleted(mid, id, false, n2);
    let w = choose|w: int| 0 <= w < db.tasks.len() && #[trigger] db.tasks[w].id == id;
    lemma_task_at(db.tasks, w);
    assert forall|i: int|
        0 <= i < db.tasks.len() && (#[trigger] db.tasks[i]).id == id implies back.tasks[i]
        == (TaskView { updated_at: n2, ..db.tasks[i] }) by {
        assert(back.tasks[i] =~= (TaskView { updated_at: n2, ..db.tasks[i] }));
    }
    assert(back.tasks[w] =~= (TaskView { updated_at: n2, ..db.tasks[w] }));
    assert(picks(TaskQueryView::AllVisible, back.tasks[w], back.links));
    lemma_chosen_complete(back.tasks, TaskQueryView::AllVisible, back.links, w);
    lemma_in_order_contains(
        TaskOrder::Standard,
        chosen(back.tasks, TaskQueryView::AllVisible, back.links),
        hydrated(back.tasks[w], back.links),
    );
    assert(hydrated(back.tasks[w], back.links) =~= hydrated(
        TaskView { updated_at: n2, ..task_at(db.tasks, id) },
        back.links,
    ));
}

/// Dropping a task's association rows leaves it with none and every other
/// task's rows untouched.
proof fn lemma_unlink_props(links: Seq<LinkView>, tid: Seq<char>)
    ensures
        forall|g: Seq<char>| !(#[trigger] has_link(without_task_links(links, tid), tid, g)),
        forall|t2: Seq<char>, g: Seq<char>|
            t2 != tid ==> (#[trigger] has_link(without_task_links(links, tid), t2, g) <==> has_link(
                links,
                t2,
                g,
            )),
    decreases links.len(),
{
    let r = without_task_links(links, tid);
    if links.len() > 0 {
        lemma_unlink_props(links.drop_last(), tid);
        let rest = without_task_links(links.drop_last(), tid);
        assert forall|g: Seq<char>| !(#[trigger] has_link(r, tid, g)) by {
            if has_link(r, tid, g) {
                let x = choose|x: int|
                    0 <= x < r.len() && #[trigger] r[x].task_id == tid && r[x].tag_id == g;
                if x < rest.len() {
                    assert(has_link(rest, tid, g));
                }
            }
        }
        assert forall|t2: Seq<char>, g: Seq<char>| t2 != tid implies (#[trigger] has_link(
            r,
            t2,
            g,
        ) <==> has_link(links, t2, g)) by {
            if has_link(r, t2, g) {
                let x = choose|x: int|
                    0 <= x < r.len() && #[trigger] r[x].task_id == t2 && r[x].tag_id == g;
                if x < rest.len() {
                    assert(has_link(rest, t2, g));
                    let y = choose|y: int|
                        0 <= y < links.drop_last().len() && #[trigger] links.drop_last()[y].task_id
                            == t2 && links.drop_last()[y].tag_id == g;
                    assert(links[y].task_id == t2 && links[y].tag_id == g);
                    assert(has_link(links, t2, g));
                } else {
                    assert(r[x] == links.last());
                    assert(links[links.len() - 1].task_id == t2 && links[links.len() - 1].tag_id
                        == g);
                    assert(has_link(links, t2, g));
                }
            }
            if has_link(links, t2, g) {
                let y = choose|y: int|
                    0 <= y < links.len() && #[trigger] links[y].task_id == t2 && links[y].tag_id
                        == g;
                if y < links.len() - 1 {
                    assert(links.drop_last()[y].task_id == t2 && links.drop_last()[y].tag_id == g);
                    assert(has_link(links.drop_last(), t2, g));
                    assert(has_link(rest, t2, g));
                    let x = choose|x: int|
                        0 <= x < rest.len() && #[trigger] rest[x].task_id == t2 && rest[x].tag_id
                            == g;
                    assert(r[x].task_id == t2 && r[x].tag_id == g);
                    assert(has_link(r, t2, g));
                } else {
                    assert(r[r.len() - 1] == links.last());
                    assert(has_link(r, t2, g));
                }
            }
        }
    }
}

/// Reinserting a task's tag list links it to exactly the valid ids of the
/// list, and touches no other task's rows.
proof fn lemma_linked_props(
    links: Seq<LinkView>,
    tid: Seq<char>,
    tags: Seq<Seq<char>>,
    tag_table: Seq<TagView>,
)
    ensures
        forall|g: Seq<char>|
            #[trigger] has_link(linked(links, tid, tags, tag_table), tid, g) <==> (has_link(
                links,
                tid,
                g,
            ) || (has_tag(tag_table, g) && tags.contains(g))),
        forall|t2: Seq<char>, g: Seq<char>|
            t2 != tid ==> (#[trigger] has_link(linked(links, tid, tags, tag_table), t2, g)
                <==> has_link(links, t2, g)),
    decreases tags.len(),
{
    if tags.len() > 0 {
        let once = if has_tag(tag_table, tags[0]) && !has_link(links, tid, tags[0]) {
            links.push(LinkView { task_id: tid, tag_id: tags[0] })
        } else {
            links
        };
        assert forall|g: Seq<char>| #[trigger] has_link(once, tid, g) <==> (has_link(links, tid, g)
            || (has_tag(tag_table, g) && g == tags[0])) by {
            if once != links {
                if has_link(once, tid, g) {
                    let x = choose|x: int|
                        0 <= x < once.len() && #[trigger] once[x].task_id == tid && once[x].tag_id
                            == g;
                    if x < links.len() {
                        assert(has_link(links, tid, g));
                    }
                }
                if has_link(links, tid, g) {
                    let x = choose|x: int|
                        0 <= x < links.len() && #[trigger] links[x].task_id == tid
                            && links[x].tag_id == g;
                    assert(once[x].task_id == tid && once[x].tag_id == g);
                }
                if g == tags[0] && has_tag(tag_table, g) {
                    assert(once[once.len() - 1].task_id == tid && once[once.len() - 1].tag_id == g);
                }
            }
        }
        assert forall|t2: Seq<char>, g: Seq<char>| t2 != tid implies (#[trigger] has_link(
            once,
            t2,
            g,
        ) <==> has_link(links, t2, g)) by {
            if once != links {
                if has_link(once, t2, g) {
                    let x = choose|x: int|
                        0 <= x < once.len() && #[trigger] once[x].task_id == t2 && once[x].tag_id
                            == g;
                    if x < links.len() {
                        assert(has_link(links, t2, g));
                    }
                }
                if has_link(links, t2, g) {
                    let x = choose|x: int|
                        0 <= x < links.len() && #[trigger] links[x].task_id == t2
                            && links[x].tag_id == g;
                    assert(once[x].task_id == t2 && once[x].tag_id == g);
                }
            }
        }
        lemma_linked_props(once, tid, tags.drop_first(), tag_table);
        assert forall|g: Seq<char>| (#[trigger] tags.contains(g)) implies (g == tags[0]
            || tags.drop_first().contains(g)) by {
            let x = choose|x: int| 0 <= x < tags.len() && tags[x] == g;
            if x > 0 {
                assert(tags.drop_first()[x - 1] == g);
            }
        }
        assert forall|g: Seq<char>| (g == tags[0] || tags.drop_first().contains(g)) implies
            #[trigger] tags.contains(g) by {
            if g == tags[0] {
                assert(tags[0] == g);
            } else {
                let x = choose|x: int| 0 <= x < tags.drop_first().len() && tags.drop_first()[x] == g;
                assert(tags[x + 1] == g);
            }
        }
        let r = linked(links, tid, tags, tag_table);
        assert(r == linked(once, tid, tags.drop_first(), tag_table));
        assert forall|g: Seq<char>| #[trigger] has_link(r, tid, g) <==> (has_link(links, tid, g)
            || (has_tag(tag_table, g) && tags.contains(g))) by {
            assert(has_link(r, tid, g) <==> (has_link(once, tid, g) || (has_tag(tag_table, g)
                && tags.drop_first().contains(g))));
        }
        assert forall|t2: Seq<char>, g: Seq<char>| t2 != tid implies (#[trigger] has_link(
            r,
            t2,
            g,
        ) <==> has_link(links, t2, g)) by {
            assert(has_link(r, t2, g) <==> has_link(once, t2, g));
        }
    }
}

/// Tag reconciliation on update: afterwards the task is linked to exactly
/// the valid ids of its new tag list — no stale row survives and no other
/// task's rows change.
pub proof fn lemma_update_reconciles_tags(db: DatabaseView, t: TaskView)
    requires
        db.wf(),
    ensures
        ({
            let after = with_updated(db, t);
            &&& forall|g: Seq<char>|
                #[trigger] has_link(after.links, t.id, g) <==> (has_tag(db.tags, g)
                    && t.tags.contains(g))
            &&& forall|t2: Seq<char>, g: Seq<char>|
                t2 != t.id ==> (#[trigger] has_link(after.links, t2, g) <==> has_link(
                    db.links,
                    t2,
                    g,
                ))
        }),
{
    lemma_unlink_props(db.links, t.id);
    lemma_linked_props(without_task_links(db.links, t.id), t.id, t.tags, db.tags);
}

/// The rows a caller sees through a due-window view (Today, Week).
pub open spec fn window_listing(db: DatabaseView, ws: i64, we: i64) -> Seq<TaskView> {
    in_order(TaskOrder::Agenda, chosen(db.tasks, TaskQueryView::DueWindow(ws, we), db.links))
}

/// A stored task appears in a due-window view exactly when it is not in
/// the trash and either is incomplete and due on or before the window's
/// end, or was completed inside the window — regardless of its due date.
pub proof fn lemma_due_window_membership(db: DatabaseView, ws: i64, we: i64, i: int)
    requires
        db.wf(),
        0 <= i < db.tasks.len(),
    ensures
        window_listing(db, ws, we).contains(hydrated(db.tasks[i], db.links)) <==> (
        !db.tasks[i].is_deleted && (crate::db::query::due_by(db.tasks[i], we)
            || crate::db::query::done_within(db.tasks[i], ws, we))),
{
    let q = TaskQueryView::DueWindow(ws, we);
    let sel = chosen(db.tasks, q, db.links);
    let listing = window_listing(db, ws, we);
    if picks(q, db.tasks[i], db.links) {
        lemma_chosen_complete(db.tasks, q, db.links, i);
        lemma_in_order_contains(TaskOrder::Agenda, sel, hydrated(db.tasks[i], db.links));
    }
    if listing.contains(hydrated(db.tasks[i], db.links)) {
        lemma_in_order_member(TaskOrder::Agenda, sel);
        lemma_chosen_member(db.tasks, q, db.links);
        let x = choose|x: int|
            0 <= x < listing.len() && listing[x] == hydrated(db.tasks[i], db.links);
        let w = choose|w: int| 0 <= w < sel.len() && sel[w] == listing[x];
        assert(comes_from(db.tasks, q, db.links, sel[w]));
        let m = choose|m: int|
            0 <= m < db.tasks.len() && picks(q, #[trigger] db.tasks[m], db.links) && hydrated(
                db.tasks[m],
                db.links,
            ) == sel[w];
        assert(db.tasks[m].id == db.tasks[i].id);
        if m != i {
            if m < i {
                assert(db.tasks[m].id != db.tasks[i].id);
            } else {
                assert(db.tasks[i].id != db.tasks[m].id);
            }
        }
        assert(picks(q, db.tasks[i], db.links));
    }
}

/// Agreement on the columns a completion cascade copies from a child
/// entity back into its row: everything but the completion stamps and the
/// tag set.
pub open spec fn agrees_core(k: TaskView, row: TaskView) -> bool {
    &&& k.id == row.id
    &&& k.title == row.title
    &&& k.description == row.description
    &&& k.list_id == row.list_id
    &&& k.priority == row.priority
    &&& k.due_date == row.due_date
    &&& k.reminder == row.reminder
    &&& k.parent_id == row.parent_id
    &&& k.order == row.order
    &&& k.is_deleted == row.is_deleted
}

/// A bare row stamped complete at the cascade instant.
pub open spec fn stamped_row(row: TaskView, done_at: i64) -> TaskView {
    TaskView {
        completed: true,
        completed_at: Some(done_at),
        updated_at: done_at,
        tags: Seq::empty(),
        ..row
    }
}

/// Walking a child list stamps exactly the rows some incomplete child
/// names, and leaves every other row untouched.
proof fn lemma_cascade_rows(st: DatabaseView, kids: Seq<TaskView>, done_at: i64)
    requires
        forall|a: int, b: int|
            0 <= a < b < st.tasks.len() ==> (#[trigger] st.tasks[a]).id != (
            #[trigger] st.tasks[b]).id,
        forall|x: int|
            0 <= x < kids.len() ==> exists|m: int|
                0 <= m < st.tasks.len() && agrees_core(#[trigger] kids[x], st.tasks[m]),
    ensures
        cascade_children(st, kids, done_at).tasks.len() == st.tasks.len(),
        cascade_children(st, kids, done_at).lists == st.lists,
        cascade_children(st, kids, done_at).tags == st.tags,
        forall|i: int|
            0 <= i < st.tasks.len() ==> #[trigger] cascade_children(st, kids, done_at).tasks[i] == (
            if (exists|x: int|
                0 <= x < kids.len() && (#[trigger] kids[x]).id == st.tasks[i].id
                    && !kids[x].completed) {
                stamped_row(st.tasks[i], done_at)
            } else {
                st.tasks[i]
            }),
    decreases kids.len(),
{
    if kids.len() > 0 {
        let next = if kids[0].completed {
            st
        } else {
            with_updated(st, child_stamped(kids[0], done_at))
        };
        let fin = cascade_children(st, kids, done_at);
        assert(fin == cascade_children(next, kids.drop_first(), done_at));
        assert(next.tasks.len() == st.tasks.len());
        assert forall|i: int| 0 <= i < st.tasks.len() implies (#[trigger] next.tasks[i]).id
            == st.tasks[i].id by {}
        assert forall|a: int, b: int| 0 <= a < b < next.tasks.len() implies (
        #[trigger] next.tasks[a]).id != (#[trigger] next.tasks[b]).id by {
            assert(st.tasks[a].id != st.tasks[b].id);
        }
        assert forall|x: int| 0 <= x < kids.drop_first().len() implies exists|m: int|
            0 <= m < next.tasks.len() && agrees_core(
                #[trigger] kids.drop_first()[x],
                next.tasks[m],
            ) by {
            assert(kids.drop_first()[x] == kids[x + 1]);
            let m = choose|m: int|
                0 <= m < st.tasks.len() && agrees_core(#[trigger] kids[x + 1], st.tasks[m]);
            assert(agrees_core(kids[x + 1], next.tasks[m]));
        }
        lemma_cascade_rows(next, kids.drop_first(), done_at);
        assert forall|i: int| 0 <= i < st.tasks.len() implies #[trigger] fin.tasks[i] == (
        if (exists|x: int|
            0 <= x < kids.len() && (#[trigger] kids[x]).id == st.tasks[i].id
                && !kids[x].completed) {
            stamped_row(st.tasks[i], done_at)
        } else {
            st.tasks[i]
        }) by {
            let row = st.tasks[i];
            let rest_hit = exists|x: int|
                0 <= x < kids.drop_first().len() && (#[trigger] kids.drop_first()[x]).id == row.id
                    && !kids.drop_first()[x].completed;
            if !kids[0].completed && kids[0].id == row.id {
                // the first child stamps this row
                assert(next.tasks[i] =~= stamped_row(row, done_at)) by {
                    let m = choose|m: int|
                        0 <= m < st.tasks.len() && agrees_core(#[trigger] kids[0], st.tasks[m]);
                    if m != i {
                        if i < m {
                            assert(st.tasks[i].id != st.tasks[m].id);
                        } else {
                            assert(st.tasks[m].id != st.tasks[i].id);
                        }
                    }
                    assert(next.tasks[i] == crate::db::task_repo::merged(
                        row,
                        child_stamped(kids[0], done_at),
                    ));
                }
                if rest_hit {
                    assert(fin.tasks[i] =~= stamped_row(next.tasks[i], done_at));
                    assert(fin.tasks[i] =~= stamped_row(row, done_at));
                } else {
                    assert(fin.tasks[i] == next.tasks[i]);
                }
                assert(exists|x: int|
                    0 <= x < kids.len() && (#[trigger] kids[x]).id == row.id
                        && !kids[x].completed) by {
                    assert(kids[0].id == row.id && !kids[0].completed);
                }
            } else {
                // the first child leaves this row alone
                assert(next.tasks[i] == row) by {
                    if !kids[0].completed {
                        if row.id == child_stamped(kids[0], done_at).id {
                            assert(kids[0].id == row.id);
                        }
                    }
                }
                if rest_hit {
                    assert(fin.tasks[i] == stamped_row(next.tasks[i], done_at));
                    assert(exists|x: int|
                        0 <= x < kids.len() && (#[trigger] kids[x]).id == row.id
                            && !kids[x].completed) by {
                        let x = choose|x: int|
                            0 <= x < kids.drop_first().len() && (
                            #[trigger] kids.drop_first()[x]).id == row.id
                                && !kids.drop_first()[x].completed;
                        assert(kids[x + 1].id == row.id && !kids[x + 1].completed);
                    }
                } else {
                    assert(fin.tasks[i] == next.tasks[i]);
                    if exists|x: int|
                        0 <= x < kids.len() && (#[trigger] kids[x]).id == row.id
                            && !kids[x].completed {
                        let x = choose|x: int|
                            0 <= x < kids.len() && (#[trigger] kids[x]).id == row.id
                                && !kids[x].completed;
                        assert(x > 0);
                        assert(kids.drop_first()[x - 1].id == row.id
                            && !kids.drop_first()[x - 1].completed);
                    }
                }
            }
        }
    }
}

/// Completing a parent completes exactly its direct, visible, currently
/// incomplete children, stamping them with the parent's completion
/// instant; an already-completed child keeps its own stamp untouched.
pub proof fn lemma_toggle_completes_children(db: DatabaseView, id: Seq<char>, now: i64)
    requires
        db.wf(),
        has_task(db.tasks, id),
        !task_at(db.tasks, id).completed,
    ensures
        ({
            let after = with_toggled(db, id, now);
            &&& after.tasks.len() == db.tasks.len()
            &&& forall|i: int|
                0 <= i < db.tasks.len() && (#[trigger] db.tasks[i]).parent_id == Some(id)
                    && db.tasks[i].id != id && !db.tasks[i].is_deleted && !db.tasks[i].completed
                    ==> after.tasks[i].completed && after.tasks[i].completed_at == Some(now)
                    && after.tasks[i].updated_at == now
            &&& forall|i: int|
                0 <= i < db.tasks.len() && (#[trigger] db.tasks[i]).parent_id == Some(id)
                    && db.tasks[i].id != id && db.tasks[i].completed ==> after.tasks[i]
                    == db.tasks[i]
        }),
{
    let t1 = toggle_entity(db, id, now);
    let mid = with_updated(db, t1);
    let kids = toggle_children(mid, id);
    let after = with_toggled(db, id, now);
    let w = choose|w: int| 0 <= w < db.tasks.len() && #[trigger] db.tasks[w].id == id;
    lemma_task_at(db.tasks, w);
    assert(t1.id == id);
    assert(t1.completed);
    assert(after == cascade_children(mid, kids, now));
    assert(mid.tasks.len() == db.tasks.len());
    assert forall|a: int, b: int| 0 <= a < b < mid.tasks.len() implies (
    #[trigger] mid.tasks[a]).id != (#[trigger] mid.tasks[b]).id by {
        assert(db.tasks[a].id != db.tasks[b].id);
    }
    lemma_chosen_member(mid.tasks, TaskQueryView::ChildrenOf(id), mid.links);
    lemma_in_order_member(
        TaskOrder::Standard,
        chosen(mid.tasks, TaskQueryView::ChildrenOf(id), mid.links),
    );
    assert forall|x: int| 0 <= x < kids.len() implies exists|m: int|
        0 <= m < mid.tasks.len() && agrees_core(#[trigger] kids[x], mid.tasks[m]) by {
        let sel = chosen(mid.tasks, TaskQueryView::ChildrenOf(id), mid.links);
        let v = choose|v: int| 0 <= v < sel.len() && sel[v] == kids[x];
        assert(comes_from(mid.tasks, TaskQueryView::ChildrenOf(id), mid.links, sel[v]));
        let m = choose|m: int|
            0 <= m < mid.tasks.len() && picks(
                TaskQueryView::ChildrenOf(id),
                #[trigger] mid.tasks[m],
                mid.links,
            ) && hydrated(mid.tasks[m], mid.links) == sel[v];
        assert(agrees_core(kids[x], mid.tasks[m]));
    }
    lemma_cascade_rows(mid, kids, now);
    assert forall|i: int|
        0 <= i < db.tasks.len() && (#[trigger] db.tasks[i]).parent_id == Some(id) && db.tasks[i].id
            != id && !db.tasks[i].is_deleted && !db.tasks[i].completed implies
        after.tasks[i].completed && after.tasks[i].completed_at == Some(now)
            && after.tasks[i].updated_at == now by {
        assert(mid.tasks[i] == db.tasks[i]);
        assert(picks(TaskQueryView::ChildrenOf(id), mid.tasks[i], mid.links));
        lemma_chosen_complete(mid.tasks, TaskQueryView::ChildrenOf(id), mid.links, i);
        lemma_in_order_contains(
            TaskOrder::Standard,
            chosen(mid.tasks, TaskQueryView::ChildrenOf(id), mid.links),
            hydrated(mid.tasks[i], mid.links),
        );
        let x = choose|x: int| 0 <= x < kids.len() && kids[x] == hydrated(mid.tasks[i], mid.links);
        assert(kids[x].id == db.tasks[i].id && !kids[x].completed);
        assert(after.tasks[i] == stamped_row(mid.tasks[i], now));
    }
    assert forall|i: int|
        0 <= i < db.tasks.len() && (#[trigger] db.tasks[i]).parent_id == Some(id) && db.tasks[i].id
            != id && db.tasks[i].completed implies after.tasks[i] == db.tasks[i] by {
        assert(mid.tasks[i] == db.tasks[i]);
        if exists|x: int|
            0 <= x < kids.len() && (#[trigger] kids[x]).id == db.tasks[i].id
                && !kids[x].completed {
            let x = choose|x: int|
                0 <= x < kids.len() && (#[trigger] kids[x]).id == db.tasks[i].id
                    && !kids[x].completed;
            let sel = chosen(mid.tasks, TaskQueryView::ChildrenOf(id), mid.links);
            let v = choose|v: int| 0 <= v < sel.len() && sel[v] == kids[x];
            assert(comes_from(mid.tasks, TaskQueryView::ChildrenOf(id), mid.links, sel[v]));
            let m = choose|m: int|
                0 <= m < mid.tasks.len() && picks(
                    TaskQueryView::ChildrenOf(id),
                    #[trigger] mid.tasks[m],
                    mid.links,
                ) && hydrated(mid.tasks[m], mid.links) == sel[v];
            assert(mid.tasks[m].id == db.tasks[i].id);
            if m != i {
                if m < i {
                    assert(mid.tasks[m].id != mid.tasks[i].id);
                } else {
                    assert(mid.tasks[i].id != mid.tasks[m].id);
                }
            }
            assert(kids[x].completed);
        }
        assert(after.tasks[i] == mid.tasks[i]);
    }
}

/// The order index a batch leaves for an id: the last pair naming it.
pub open spec fn last_order(pairs: Seq<(String, i32)>, id: Seq<char>) -> Option<i32>
    decreases pairs.len(),
{
    if pairs.len() == 0 {
        None
    } else if pairs.last().0@ == id {
        Some(pairs.last().1)
    } else {
        last_order(pairs.drop_last(), id)
    }
}

proof fn lemma_last_order_front(pairs: Seq<(String, i32)>, id: Seq<char>)
    requires
        pairs.len() > 0,
    ensures
        last_order(pairs, id) == (match last_order(pairs.drop_first(), id) {
            Some(o) => Some(o),
            None => if pairs[0].0@ == id {
                Some(pairs[0].1)
            } else {
                None
            },
        }),
    decreases pairs.len(),
{
    if pairs.len() == 1 {
        assert(pairs.drop_first() =~= Seq::<(String, i32)>::empty());
        assert(pairs.last() == pairs[0]);
    } else {
        assert(pairs.last() == pairs.drop_first().last());
        assert(pairs.drop_last().drop_first() =~= pairs.drop_first().drop_last());
        if pairs.last().0@ != id {
            lemma_last_order_front(pairs.drop_last(), id);
            assert(pairs.drop_last()[0] == pairs[0]);
        }
    }
}

/// A batch reorder sets each named task's order index to the last value
/// its id is paired with, and touches nothing else of any row.
pub proof fn lemma_batch_reorder(tasks: Seq<TaskView>, pairs: Seq<(String, i32)>, i: int)
    requires
        0 <= i < tasks.len(),
    ensures
        order_applied(tasks, pairs).len() == tasks.len(),
        order_applied(tasks, pairs)[i] == (match last_order(pairs, tasks[i].id) {
            Some(o) => TaskView { order: o, ..tasks[i] },
            None => tasks[i],
        }),
    decreases pairs.len(),
{
    if pairs.len() > 0 {
        let mid = one_order(tasks, pairs[0].0@, pairs[0].1);
        assert(mid[i].id == tasks[i].id);
        lemma_batch_reorder(mid, pairs.drop_first(), i);
        lemma_last_order_front(pairs, tasks[i].id);
        match last_order(pairs.drop_first(), tasks[i].id) {
            Some(o) => {
                assert((TaskView { order: o, ..mid[i] }) =~= (TaskView { order: o, ..tasks[i] }));
            },
            None => {
                if pairs[0].0@ == tasks[i].id {
                    assert(mid[i] =~= (TaskView { order: pairs[0].1, ..tasks[i] }));
                } else {
                    assert(mid[i] == tasks[i]);
                }
            },
        }
    }
}

/// Creating a task links it to exactly the valid ids of its tag list:
/// an id naming no tag row is silently dropped.
pub proof fn lemma_create_links_valid_tags(db: DatabaseView, t: TaskView)
    requires
        db.wf(),
        !has_task(db.tasks, t.id),
    ensures
        ({
            let after = crate::db::task_repo::with_created(db, t);
            &&& forall|g: Seq<char>|
                #[trigger] has_link(after.links, t.id, g) <==> (has_tag(db.tags, g)
                    && t.tags.contains(g))
            &&& forall|t2: Seq<char>, g: Seq<char>|
                t2 != t.id ==> (#[trigger] has_link(after.links, t2, g) <==> has_link(
                    db.links,
                    t2,
                    g,
                ))
        }),
{
    assert forall|g: Seq<char>| !(#[trigger] has_link(db.links, t.id, g)) by {
        if has_link(db.links, t.id, g) {
            let x = choose|x: int|
                0 <= x < db.links.len() && #[trigger] db.links[x].task_id == t.id
                    && db.links[x].tag_id == g;
            assert(has_task(db.tasks, t.id));
        }
    }
    lemma_linked_props(db.links, t.id, t.tags, db.tags);
}

} // verus!
