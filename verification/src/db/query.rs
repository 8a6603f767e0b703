//! Task selection: which rows a listing returns, before ordering. A
//! selection keeps table order and hydrates each picked row with its tag
//! set; the listing then sorts it.

use vstd::prelude::*;
use crate::db::connection::{has_link, hydrated, Database, LinkView};
use crate::db::sorting::{in_order, sort_tasks, TaskOrder};
use crate::models::task::{Task, TaskView};
use crate::text::str_eq;

verus! {

/// A task selection, resolved once from a listing request.
#[derive(Debug)]
pub enum TaskQuery {
    /// Every task not in the trash.
    AllVisible,
    /// Every soft-deleted task.
    Trashed,
    /// Every completed task not in the trash.
    CompletedVisible,
    /// Tasks due up to the second bound and incomplete, or completed
    /// within the two bounds; trash excluded.
    DueWindow(i64, i64),
    /// Tasks of one list, trash excluded.
    InList(String),
    /// Tasks associated with one tag, trash excluded.
    WithTag(String),
    /// Direct children of one task, trash excluded.
    ChildrenOf(String),
}

/// The mathematical image of a selection.
pub ghost enum TaskQueryView {
    AllVisible,
    Trashed,
    CompletedVisible,
    DueWindow(i64, i64),
    InList(Seq<char>),
    WithTag(Seq<char>),
    ChildrenOf(Seq<char>),
}

impl View for TaskQuery {
    type V = TaskQueryView;

    open spec fn view(&self) -> TaskQueryView {
        match self {
            TaskQuery::AllVisible => TaskQueryView::AllVisible,
            TaskQuery::Trashed => TaskQueryView::Trashed,
            TaskQuery::CompletedVisible => TaskQueryView::CompletedVisible,
            TaskQuery::DueWindow(s, e) => TaskQueryView::DueWindow(*s, *e),
            TaskQuery::InList(id) => TaskQueryView::InList(id@),
            TaskQuery::WithTag(id) => TaskQueryView::WithTag(id@),
            TaskQuery::ChildrenOf(id) => TaskQueryView::ChildrenOf(id@),
        }
    }
}

/// An incomplete task due on or before the window's end.
pub open spec fn due_by(t: TaskView, window_end: i64) -> bool {
    &&& t.due_date matches Some(d)
    &&& d <= window_end
    &&& !t.completed
}

/// A task completed inside the window.
pub open spec fn done_within(t: TaskView, window_start: i64, window_end: i64) -> bool {
    &&& t.completed
    &&& t.completed_at matches Some(c)
    &&& window_start <= c <= window_end
}

/// Whether the selection picks this row.
pub open spec fn picks(q: TaskQueryView, t: TaskView, links: Seq<LinkView>) -> bool {
    match q {
        TaskQueryView::AllVisible => !t.is_deleted,
        TaskQueryView::Trashed => t.is_deleted,
        TaskQueryView::CompletedVisible => t.completed && !t.is_deleted,
        TaskQueryView::DueWindow(s, e) => !t.is_deleted && (due_by(t, e) || done_within(t, s, e)),
        TaskQueryView::InList(id) => !t.is_deleted && t.list_id == id,
        TaskQueryView::WithTag(id) => !t.is_deleted && has_link(links, t.id, id),
        TaskQueryView::ChildrenOf(id) => !t.is_deleted && t.parent_id == Some(id),
    }
}

/// The selected rows in table order, each hydrated with its tag set.
pub open spec fn chosen(tasks: Seq<TaskView>, q: TaskQueryView, links: Seq<LinkView>) -> Seq<
    TaskView,
>
    decreases tasks.len(),
{
    if tasks.len() == 0 {
        Seq::empty()
    } else {
        chosen(tasks.drop_last(), q, links) + if picks(q, tasks.last(), links) {
            seq![hydrated(tasks.last(), links)]
        } else {
            Seq::empty()
        }
    }
}

/// Some picked source row hydrates to this value.
pub open spec fn comes_from(
    tasks: Seq<TaskView>,
    q: TaskQueryView,
    links: Seq<LinkView>,
    v: TaskView,
) -> bool {
    exists|m: int|
        0 <= m < tasks.len() && picks(q, #[trigger] tasks[m], links) && hydrated(tasks[m], links)
            == v
}

/// Every selected row is a picked source row, hydrated.
pub proof fn lemma_chosen_member(tasks: Seq<TaskView>, q: TaskQueryView, links: Seq<LinkView>)
    ensures
        forall|x: int|
            0 <= x < chosen(tasks, q, links).len() ==> comes_from(
                tasks,
                q,
                links,
                #[trigger] chosen(tasks, q, links)[x],
            ),
    decreases tasks.len(),
{
    let r = chosen(tasks, q, links);
    if tasks.len() > 0 {
        lemma_chosen_member(tasks.drop_last(), q, links);
        let rest = chosen(tasks.drop_last(), q, links);
        assert forall|x: int| 0 <= x < r.len() implies comes_from(tasks, q, links, r[x]) by {
            if x < rest.len() {
                assert(r[x] == rest[x]);
                assert(comes_from(tasks.drop_last(), q, links, rest[x]));
                let m = choose|m: int|
                    0 <= m < tasks.drop_last().len() && picks(
                        q,
                        #[trigger] tasks.drop_last()[m],
                        links,
                    ) && hydrated(tasks.drop_last()[m], links) == rest[x];
                assert(tasks[m] == tasks.drop_last()[m]);
                assert(picks(q, tasks[m], links) && hydrated(tasks[m], links) == r[x]);
            } else {
                assert(r[x] == hydrated(tasks.last(), links));
                assert(picks(q, tasks[tasks.len() - 1], links) && hydrated(
                    tasks[tasks.len() - 1],
                    links,
                ) == r[x]);
            }
        }
    }
}

/// A picked row's hydrated copy appears in the selection.
pub proof fn lemma_chosen_complete(
    tasks: Seq<TaskView>,
    q: TaskQueryView,
    links: Seq<LinkView>,
    m: int,
)
    requires
        0 <= m < tasks.len(),
        picks(q, tasks[m], links),
    ensures
        chosen(tasks, q, links).contains(hydrated(tasks[m], links)),
    decreases tasks.len(),
{
    let r = chosen(tasks, q, links);
    let rest = chosen(tasks.drop_last(), q, links);
    if m == tasks.len() - 1 {
        assert(r[rest.len() as int] == hydrated(tasks[m], links));
    } else {
        assert(tasks.drop_last()[m] == tasks[m]);
        lemma_chosen_complete(tasks.drop_last(), q, links, m);
        let i = choose|i: int| 0 <= i < rest.len() && rest[i] == hydrated(tasks[m], links);
        assert(r[i] == hydrated(tasks[m], links));
    }
}

fn picks_exec(db: &Database, q: &TaskQuery, i: usize) -> (r: bool)
    requires
        i < db.tasks.len(),
    ensures
        r == picks(q@, db@.tasks[i as int], db@.links),
{
    let t = &db.tasks[i];
    match q {
        TaskQuery::AllVisible => !t.is_deleted,
        TaskQuery::Trashed => t.is_deleted,
        TaskQuery::CompletedVisible => t.completed && !t.is_deleted,
        TaskQuery::DueWindow(s, e) => !t.is_deleted && ((match t.due_date {
            Option::Some(d) => d <= *e && !t.completed,
            Option::None => false,
        }) || (t.completed && match t.completed_at {
            Option::Some(c) => *s <= c && c <= *e,
            Option::None => false,
        })),
        TaskQuery::InList(id) => !t.is_deleted && str_eq(t.list_id.as_str(), id.as_str()),
        TaskQuery::WithTag(id) => !t.is_deleted && db.link_present(t.id.as_str(), id.as_str()),
        TaskQuery::ChildrenOf(id) => !t.is_deleted && (match &t.parent_id {
            Option::Some(p) => str_eq(p.as_str(), id.as_str()),
            Option::None => false,
        }),
    }
}

/// The selected rows in table order, hydrated.
pub(crate) fn collect_tasks(db: &Database, q: &TaskQuery) -> (r: Vec<Task>)
    ensures
        r.deep_view() == chosen(db@.tasks, q@, db@.links),
{
    let mut out: Vec<Task> = Vec::new();
    proof {
        assert(db@.tasks.take(0) =~= Seq::<TaskView>::empty());
        assert(out.deep_view() =~= chosen(db@.tasks.take(0), q@, db@.links));
    }
    let mut i: usize = 0;
    while i < db.tasks.len()
        invariant
            i <= db.tasks.len(),
            out.deep_view() == chosen(db@.tasks.take(i as int), q@, db@.links),
        decreases db.tasks.len() - i,
    {
        let ghost before = out.deep_view();
        if picks_exec(db, q, i) {
            let row = db.hydrated_row(i);
            out.push(row);
        }
        proof {
            let stepped = db@.tasks.take(i as int + 1);
            assert(stepped.drop_last() =~= db@.tasks.take(i as int));
            assert(stepped.last() == db@.tasks[i as int]);
            if picks(q@, db@.tasks[i as int], db@.links) {
                assert(out.deep_view() =~= before + seq![hydrated(db@.tasks[i as int], db@.links)]);
            } else {
                assert(out.deep_view() =~= before);
            }
        }
        i = i + 1;
    }
    proof {
        assert(db@.tasks.take(db.tasks.len() as int) =~= db@.tasks);
    }
    out
}

/// The selected rows in display order: a listing's full result.
pub(crate) fn listed(db: &Database, q: &TaskQuery, k: TaskOrder) -> (r: Vec<Task>)
    ensures
        r.deep_view() == in_order(k, chosen(db@.tasks, q@, db@.links)),
{
    let sel = collect_tasks(db, q);
    sort_tasks(&sel, k)
}

} // verus!
