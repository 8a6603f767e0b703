//! Hard deletion with referential cascade: removing task rows removes
//! every task whose parent chain reaches a removed row, and every
//! association row of a removed task — the behaviour a store with
//! cascading foreign keys gives.

use vstd::prelude::*;
use vstd::pervasive::VecAdditionalExecFns;
use crate::db::connection::{has_tag, has_task, Database, DatabaseView, LinkView, TaskTag};
use crate::models::task::{Task, TaskView};
use crate::text::str_eq;

verus! {

/// What a hard deletion is rooted at.
#[derive(Debug)]
pub enum PurgeSeed {
    /// One task by id.
    ById(String),
    /// Every soft-deleted task (emptying the trash).
    Trashed,
    /// Every task of one list (a list cascade).
    InList(String),
}

/// The mathematical image of a seed.
pub ghost enum PurgeSeedView {
    ById(Seq<char>),
    Trashed,
    InList(Seq<char>),
}

impl View for PurgeSeed {
    type V = PurgeSeedView;

    open spec fn view(&self) -> PurgeSeedView {
        match self {
            PurgeSeed::ById(id) => PurgeSeedView::ById(id@),
            PurgeSeed::Trashed => PurgeSeedView::Trashed,
            PurgeSeed::InList(id) => PurgeSeedView::InList(id@),
        }
    }
}

/// Whether the seed names this row directly.
pub open spec fn seeds(s: PurgeSeedView, t: TaskView) -> bool {
    match s {
        PurgeSeedView::ById(id) => t.id == id,
        PurgeSeedView::Trashed => t.is_deleted,
        PurgeSeedView::InList(id) => t.list_id == id,
    }
}

/// The seed names the row, or a chain of at most `fuel` parent steps from
/// it ends in a named row.
pub open spec fn doomed_at(tasks: Seq<TaskView>, s: PurgeSeedView, t: TaskView, fuel: nat) -> bool
    decreases fuel,
{
    seeds(s, t) || ({
        &&& fuel > 0
        &&& t.parent_id matches Some(p)
        &&& exists|i: int|
            0 <= i < tasks.len() && (#[trigger] tasks[i]).id == p && doomed_at(
                tasks,
                s,
                tasks[i],
                (fuel - 1) as nat,
            )
    })
}

/// The cascade reaches this row.
pub open spec fn doomed(tasks: Seq<TaskView>, s: PurgeSeedView, t: TaskView) -> bool {
    exists|fuel: nat| #[trigger] doomed_at(tasks, s, t, fuel)
}

/// The task rows the cascade leaves, in table order.
pub open spec fn purged_tasks(
    tasks: Seq<TaskView>,
    orig: Seq<TaskView>,
    s: PurgeSeedView,
) -> Seq<TaskView>
    decreases tasks.len(),
{
    if tasks.len() == 0 {
        Seq::empty()
    } else {
        purged_tasks(tasks.drop_last(), orig, s) + if doomed(orig, s, tasks.last()) {
            Seq::empty()
        } else {
            seq![tasks.last()]
        }
    }
}

/// The association rows whose task survives, in table order.
pub open spec fn links_for_live(links: Seq<LinkView>, live: Seq<TaskView>) -> Seq<LinkView>
    decreases links.len(),
{
    if links.len() == 0 {
        Seq::empty()
    } else {
        links_for_live(links.drop_last(), live) + if has_task(live, links.last().task_id) {
            seq![links.last()]
        } else {
            Seq::empty()
        }
    }
}

/// The store after a hard deletion rooted at the seed.
pub open spec fn purged(db: DatabaseView, s: PurgeSeedView) -> DatabaseView {
    let live = purged_tasks(db.tasks, db.tasks, s);
    DatabaseView { tasks: live, links: links_for_live(db.links, live), ..db }
}

spec fn count_true(s: Seq<bool>) -> int
    decreases s.len(),
{
    if s.len() == 0 {
        0
    } else {
        count_true(s.drop_last()) + if s.last() {
            1int
        } else {
            0int
        }
    }
}

proof fn lemma_count_bounds(s: Seq<bool>)
    ensures
        0 <= count_true(s) <= s.len(),
    decreases s.len(),
{
    if s.len() > 0 {
        lemma_count_bounds(s.drop_last());
    }
}

proof fn lemma_count_update_true(s: Seq<bool>, i: int)
    requires
        0 <= i < s.len(),
        !s[i],
    ensures
        count_true(s.update(i, true)) == count_true(s) + 1,
    decreases s.len(),
{
    let u = s.update(i, true);
    if i == s.len() - 1 {
        assert(u.drop_last() =~= s.drop_last());
    } else {
        assert(u.drop_last() =~= s.drop_last().update(i, true));
        lemma_count_update_true(s.drop_last(), i);
    }
}

/// A set of rows closed under "parent kept" and free of seeded rows is
/// out of the cascade's reach at every fuel.
proof fn lemma_unmarked_safe(tasks: Seq<TaskView>, s: PurgeSeedView, marks: Seq<bool>, fuel: nat)
    requires
        marks.len() == tasks.len(),
        forall|a: int, b: int|
            0 <= a < b < tasks.len() ==> (#[trigger] tasks[a]).id != (#[trigger] tasks[b]).id,
        forall|k: int| 0 <= k < tasks.len() && !marks[k] ==> !seeds(s, #[trigger] tasks[k]),
        forall|k: int, j: int|
            0 <= k < tasks.len() && 0 <= j < tasks.len() && !marks[k] && (#[trigger] tasks[k]).parent_id
                == Some((#[trigger] tasks[j]).id) ==> !marks[j],
    ensures
        forall|k: int|
            0 <= k < tasks.len() && !marks[k] ==> !doomed_at(tasks, s, #[trigger] tasks[k], fuel),
    decreases fuel,
{
    if fuel > 0 {
        lemma_unmarked_safe(tasks, s, marks, (fuel - 1) as nat);
    }
    assert forall|k: int| 0 <= k < tasks.len() && !marks[k] implies !doomed_at(
        tasks,
        s,
        #[trigger] tasks[k],
        fuel,
    ) by {
        if doomed_at(tasks, s, tasks[k], fuel) {
            assert(!seeds(s, tasks[k]));
            let p = tasks[k].parent_id->Some_0;
            let j = choose|j: int|
                0 <= j < tasks.len() && (#[trigger] tasks[j]).id == p && doomed_at(
                    tasks,
                    s,
                    tasks[j],
                    (fuel - 1) as nat,
                );
            assert(tasks[k].parent_id == Some(tasks[j].id));
            assert(!marks[j]);
        }
    }
}

fn seeded_exec(db: &Database, seed: &PurgeSeed, i: usize) -> (r: bool)
    requires
        i < db.tasks.len(),
    ensures
        r == seeds(seed@, db@.tasks[i as int]),
{
    match seed {
        PurgeSeed::ById(id) => str_eq(db.tasks[i].id.as_str(), id.as_str()),
        PurgeSeed::Trashed => db.tasks[i].is_deleted,
        PurgeSeed::InList(id) => str_eq(db.tasks[i].list_id.as_str(), id.as_str()),
    }
}

/// Rows the cascade keeps never repeat an id.
proof fn lemma_purged_distinct(
    tasks: Seq<TaskView>,
    orig: Seq<TaskView>,
    s: PurgeSeedView,
    a: int,
    b: int,
)
    requires
        forall|x: int, y: int|
            0 <= x < y < tasks.len() ==> (#[trigger] tasks[x]).id != (#[trigger] tasks[y]).id,
        0 <= a < b < purged_tasks(tasks, orig, s).len(),
    ensures
        purged_tasks(tasks, orig, s)[a].id != purged_tasks(tasks, orig, s)[b].id,
    decreases tasks.len(),
{
    let r = purged_tasks(tasks, orig, s);
    let rest = purged_tasks(tasks.drop_last(), orig, s);
    lemma_purged_from(tasks.drop_last(), orig, s);
    if b < rest.len() {
        lemma_purged_distinct(tasks.drop_last(), orig, s, a, b);
    } else {
        assert(r[b] == tasks.last());
        assert(r[a] == rest[a]);
        let m = choose|m: int|
            0 <= m < tasks.drop_last().len() && tasks.drop_last()[m] == rest[a];
        assert(tasks[m] == r[a]);
        assert(tasks[m].id != tasks[tasks.len() - 1].id);
    }
}

/// Every row the cascade keeps comes from the source table and is not
/// doomed; and every undoomed source row is kept.
pub(crate) proof fn lemma_purged_from(tasks: Seq<TaskView>, orig: Seq<TaskView>, s: PurgeSeedView)
    ensures
        forall|k: int|
            0 <= k < purged_tasks(tasks, orig, s).len() ==> exists|m: int|
                0 <= m < tasks.len() && tasks[m] == #[trigger] purged_tasks(tasks, orig, s)[k]
                    && !doomed(orig, s, tasks[m]),
        forall|m: int|
            0 <= m < tasks.len() && !doomed(orig, s, #[trigger] tasks[m]) ==> has_task(
                purged_tasks(tasks, orig, s),
                tasks[m].id,
            ),
    decreases tasks.len(),
{
    let r = purged_tasks(tasks, orig, s);
    if tasks.len() > 0 {
        lemma_purged_from(tasks.drop_last(), orig, s);
        let rest = purged_tasks(tasks.drop_last(), orig, s);
        assert forall|k: int| 0 <= k < r.len() implies exists|m: int|
            0 <= m < tasks.len() && tasks[m] == #[trigger] r[k] && !doomed(orig, s, tasks[m]) by {
            if k < rest.len() {
                assert(r[k] == rest[k]);
                let m = choose|m: int|
                    0 <= m < tasks.drop_last().len() && tasks.drop_last()[m] == rest[k] && !doomed(
                        orig,
                        s,
                        tasks.drop_last()[m],
                    );
                assert(tasks[m] == r[k] && !doomed(orig, s, tasks[m]));
            } else {
                assert(r[k] == tasks.last());
                assert(tasks[tasks.len() - 1] == r[k] && !doomed(orig, s, tasks[tasks.len() - 1]));
            }
        }
        assert forall|m: int|
            0 <= m < tasks.len() && !doomed(orig, s, #[trigger] tasks[m]) implies has_task(
            r,
            tasks[m].id,
        ) by {
            if m < tasks.len() - 1 {
                assert(tasks.drop_last()[m] == tasks[m]);
                assert(has_task(rest, tasks[m].id));
                let k = choose|k: int| 0 <= k < rest.len() && #[trigger] rest[k].id == tasks[m].id;
                assert(r[k] == rest[k]);
                assert(has_task(r, tasks[m].id));
            } else {
                assert(r[r.len() - 1] == tasks.last());
                assert(has_task(r, tasks[m].id));
            }
        }
    }
}

/// Rows the link filter keeps come from the source table.
proof fn lemma_live_links_from(links: Seq<LinkView>, live: Seq<TaskView>)
    ensures
        forall|k: int|
            0 <= k < links_for_live(links, live).len() ==> exists|m: int|
                0 <= m < links.len() && links[m] == #[trigger] links_for_live(links, live)[k],
    decreases links.len(),
{
    let r = links_for_live(links, live);
    if links.len() > 0 {
        lemma_live_links_from(links.drop_last(), live);
        let rest = links_for_live(links.drop_last(), live);
        assert forall|k: int| 0 <= k < r.len() implies exists|m: int|
            0 <= m < links.len() && links[m] == #[trigger] r[k] by {
            if k < rest.len() {
                assert(r[k] == rest[k]);
                let m = choose|m: int|
                    0 <= m < links.drop_last().len() && links.drop_last()[m] == rest[k];
                assert(links[m] == r[k]);
            } else {
                assert(r[k] == links.last());
                assert(links[links.len() - 1] == r[k]);
            }
        }
    }
}

/// Link rows the filter keeps never repeat a pair.
proof fn lemma_live_links_distinct(links: Seq<LinkView>, live: Seq<TaskView>, a: int, b: int)
    requires
        forall|x: int, y: int|
            0 <= x < y < links.len() ==> !((#[trigger] links[x]).task_id == (
            #[trigger] links[y]).task_id && links[x].tag_id == links[y].tag_id),
        0 <= a < b < links_for_live(links, live).len(),
    ensures
        !(links_for_live(links, live)[a].task_id == links_for_live(links, live)[b].task_id
            && links_for_live(links, live)[a].tag_id == links_for_live(links, live)[b].tag_id),
    decreases links.len(),
{
    let r = links_for_live(links, live);
    let rest = links_for_live(links.drop_last(), live);
    lemma_live_links_from(links.drop_last(), live);
    if b < rest.len() {
        lemma_live_links_distinct(links.drop_last(), live, a, b);
    } else {
        assert(r[b] == links.last());
        assert(r[a] == rest[a]);
        let m = choose|m: int|
            0 <= m < links.drop_last().len() && links.drop_last()[m] == rest[a];
        assert(links[m] == r[a]);
        assert(!(links[m].task_id == links[links.len() - 1].task_id && links[m].tag_id
            == links[links.len() - 1].tag_id));
    }
}

/// Hard-deletes every task the seed names, cascading through parent
/// chains, and drops the association rows of removed tasks.
pub(crate) fn purge(db: &mut Database, seed: &PurgeSeed)
    requires
        old(db)@.wf(),
    ensures
        final(db)@.wf(),
        final(db)@ == purged(old(db)@, seed@),
{
    let ghost pre = db@;
    let ghost s = seed@;
    let n: usize = db.tasks.len();

    // Mark phase: start from the rows the seed names.
    let mut marks: Vec<bool> = Vec::new();
    let mut marked: usize = 0;
    let mut i: usize = 0;
    while i < n
        invariant
            i <= n,
            n == db.tasks.len(),
            db@ == pre,
            pre.wf(),
            s == seed@,
            marks@.len() == i as int,
            marked as int == count_true(marks@),
            marked <= i,
            forall|k: int| 0 <= k < i ==> marks@[k] == seeds(s, #[trigger] pre.tasks[k]),
        decreases n - i,
    {
        let ghost before = marks@;
        let hit = seeded_exec(db, seed, i);
        marks.push(hit);
        if hit {
            marked = marked + 1;
        }
        proof {
            assert(marks@.drop_last() =~= before);
            lemma_count_bounds(before);
        }
        i = i + 1;
    }

    // Fixpoint: a row whose parent is marked is marked too, until a full
    // pass changes nothing.
    proof {
        assert forall|k: int| 0 <= k < n && #[trigger] marks@[k] implies doomed(
            pre.tasks,
            s,
            pre.tasks[k],
        ) by {
            assert(doomed_at(pre.tasks, s, pre.tasks[k], 0));
        }
    }
    loop
        invariant
            n == db.tasks.len(),
            db@ == pre,
            pre.wf(),
            s == seed@,
            marks@.len() == n as int,
            marked as int == count_true(marks@),
            marked <= n,
            forall|k: int| 0 <= k < n ==> (seeds(s, #[trigger] pre.tasks[k]) ==> marks@[k]),
            forall|k: int|
                0 <= k < n && #[trigger] marks@[k] ==> doomed(pre.tasks, s, pre.tasks[k]),
        ensures
            marks@.len() == n as int,
            forall|m: int|
                0 <= m < n ==> (#[trigger] marks@[m] <==> doomed(pre.tasks, s, pre.tasks[m])),
        decreases n - marked,
    {
        let ghost marked0 = marked;
        let mut changed: bool = false;
        let mut k: usize = 0;
        while k < n
            invariant
                k <= n,
                n == db.tasks.len(),
                db@ == pre,
                pre.wf(),
                s == seed@,
                marks@.len() == n as int,
                marked as int == count_true(marks@),
                marked <= n,
                marked >= marked0,
                !changed ==> marked == marked0,
                changed ==> marked > marked0,
                forall|m: int| 0 <= m < n ==> (seeds(s, #[trigger] pre.tasks[m]) ==> marks@[m]),
                forall|m: int|
                    0 <= m < n && #[trigger] marks@[m] ==> doomed(pre.tasks, s, pre.tasks[m]),
                !changed ==> forall|a: int, j: int|
                    0 <= a < k && 0 <= j < n && !marks@[a] && (#[trigger] pre.tasks[a]).parent_id
                        == Some((#[trigger] pre.tasks[j]).id) ==> !marks@[j],
            decreases n - k,
        {
            if !marks[k] {
                let parent_idx: Option<usize> = match &db.tasks[k].parent_id {
                    Some(p) => db.find_task(p.as_str()),
                    None => None,
                };
                match parent_idx {
                    Some(j) => {
                        if marks[j] {
                            let ghost before = marks@;
                            marks.set(k, true);
                            proof {
                                lemma_count_update_true(before, k as int);
                                lemma_count_bounds(marks@);
                            }
                            marked = marked + 1;
                            changed = true;
                            proof {
                                let f = choose|f: nat|
                                    #[trigger] doomed_at(pre.tasks, s, pre.tasks[j as int], f);
                                assert(pre.tasks[k as int].parent_id == Some(
                                    pre.tasks[j as int].id,
                                ));
                                assert(doomed_at(pre.tasks, s, pre.tasks[k as int], f + 1));
                                assert(doomed(pre.tasks, s, pre.tasks[k as int]));
                            }
                        }
                    },
                    None => {},
                }
            }
            k = k + 1;
        }
        if !changed {
            proof {
                assert forall|m: int| 0 <= m < n && !marks@[m] implies !doomed(
                    pre.tasks,
                    s,
                    #[trigger] pre.tasks[m],
                ) by {
                    if doomed(pre.tasks, s, pre.tasks[m]) {
                        let f = choose|f: nat| #[trigger] doomed_at(pre.tasks, s, pre.tasks[m], f);
                        lemma_unmarked_safe(pre.tasks, s, marks@, f);
                    }
                }
            }
            break;
        }
    }

    // Rebuild the task table, keeping unmarked rows.
    let ghost live_spec = purged_tasks(pre.tasks, pre.tasks, s);
    let mut kept: Vec<Task> = Vec::new();
    proof {
        assert(pre.tasks.take(0) =~= Seq::<TaskView>::empty());
        assert(kept.deep_view() =~= purged_tasks(pre.tasks.take(0), pre.tasks, s));
    }
    let mut a: usize = 0;
    while a < n
        invariant
            a <= n,
            n == db.tasks.len(),
            db@ == pre,
            pre.wf(),
            s == seed@,
            marks@.len() == n as int,
            forall|m: int|
                0 <= m < n ==> (#[trigger] marks@[m] <==> doomed(pre.tasks, s, pre.tasks[m])),
            kept.deep_view() == purged_tasks(pre.tasks.take(a as int), pre.tasks, s),
            forall|m: int|
                0 <= m < a && !doomed(pre.tasks, s, #[trigger] pre.tasks[m]) ==> has_task(
                    kept.deep_view(),
                    pre.tasks[m].id,
                ),
        decreases n - a,
    {
        let ghost before = kept.deep_view();
        if !marks[a] {
            kept.push(db.tasks[a].clone());
            proof {
                assert(kept.deep_view() =~= before.push(pre.tasks[a as int]));
                assert forall|m: int|
                    0 <= m < a + 1 && !doomed(pre.tasks, s, #[trigger] pre.tasks[m]) implies
                    has_task(kept.deep_view(), pre.tasks[m].id) by {
                    if m < a as int {
                        let w = choose|w: int|
                            0 <= w < before.len() && #[trigger] before[w].id == pre.tasks[m].id;
                        assert(kept.deep_view()[w].id == pre.tasks[m].id);
                    } else {
                        assert(kept.deep_view()[before.len() as int].id == pre.tasks[m].id);
                    }
                }
            }
        }
        proof {
            let stepped = pre.tasks.take(a as int + 1);
            assert(stepped.drop_last() =~= pre.tasks.take(a as int));
            assert(stepped.last() == pre.tasks[a as int]);
            assert(kept.deep_view() =~= purged_tasks(stepped, pre.tasks, s));
        }
        a = a + 1;
    }
    proof {
        assert(pre.tasks.take(n as int) =~= pre.tasks);
    }
    db.tasks = kept;

    // Rebuild the association table, keeping rows of surviving tasks.
    let mut klinks: Vec<TaskTag> = Vec::new();
    let ghost live = db@.tasks;
    proof {
        assert(live == live_spec);
        assert(pre.links.take(0) =~= Seq::<LinkView>::empty());
        assert(klinks.deep_view() =~= links_for_live(pre.links.take(0), live));
    }
    let mut b: usize = 0;
    while b < db.links.len()
        invariant
            b <= db.links.len(),
            db@.links == pre.links,
            db@.tasks == live,
            db@.lists == pre.lists,
            db@.tags == pre.tags,
            klinks.deep_view() == links_for_live(pre.links.take(b as int), live),
        decreases db.links.len() - b,
    {
        let ghost before = klinks.deep_view();
        if db.find_task(db.links[b].task_id.as_str()).is_some() {
            klinks.push(db.links[b].clone());
            proof {
                assert(klinks.deep_view() =~= before.push(pre.links[b as int]));
            }
        }
        proof {
            let stepped = pre.links.take(b as int + 1);
            assert(stepped.drop_last() =~= pre.links.take(b as int));
            assert(stepped.last() == pre.links[b as int]);
            if has_task(live, pre.links[b as int].task_id) {
                assert(klinks.deep_view() =~= links_for_live(stepped, live));
            } else {
                assert(klinks.deep_view() =~= links_for_live(stepped, live));
            }
        }
        b = b + 1;
    }
    proof {
        assert(pre.links.take(pre.links.len() as int) =~= pre.links);
    }
    db.links = klinks;

    // The result is exactly the purged store, and it is well-formed.
    proof {
        let post = db@;
        assert(post =~= purged(pre, s));
        lemma_purged_from(pre.tasks, pre.tasks, s);
        lemma_live_links_from(pre.links, live);
        assert forall|x: int, y: int| 0 <= x < y < post.tasks.len() implies (
        #[trigger] post.tasks[x]).id != (#[trigger] post.tasks[y]).id by {
            lemma_purged_distinct(pre.tasks, pre.tasks, s, x, y);
        }
        assert forall|x: int| 0 <= x < post.tasks.len() implies crate::db::connection::has_list(
            post.lists,
            (#[trigger] post.tasks[x]).list_id,
        ) by {
            let m = choose|m: int|
                0 <= m < pre.tasks.len() && pre.tasks[m] == #[trigger] post.tasks[x] && !doomed(
                    pre.tasks,
                    s,
                    pre.tasks[m],
                );
            assert(crate::db::connection::has_list(pre.lists, pre.tasks[m].list_id));
        }
        assert forall|x: int|
            0 <= x < post.tasks.len() implies ((#[trigger] post.tasks[x]).parent_id matches Some(p)
            ==> has_task(post.tasks, p)) by {
            let m = choose|m: int|
                0 <= m < pre.tasks.len() && pre.tasks[m] == #[trigger] post.tasks[x] && !doomed(
                    pre.tasks,
                    s,
                    pre.tasks[m],
                );
            if post.tasks[x].parent_id is Some {
                let p = post.tasks[x].parent_id->Some_0;
                assert(has_task(pre.tasks, p));
                let w = choose|w: int|
                    0 <= w < pre.tasks.len() && #[trigger] pre.tasks[w].id == p;
                assert(pre.tasks[m].parent_id == Some(pre.tasks[w].id));
                assert(!doomed(pre.tasks, s, pre.tasks[w])) by {
                    if doomed(pre.tasks, s, pre.tasks[w]) {
                        let f = choose|f: nat|
                            #[trigger] doomed_at(pre.tasks, s, pre.tasks[w], f);
                        assert(doomed_at(pre.tasks, s, pre.tasks[m], f + 1));
                        assert(doomed(pre.tasks, s, pre.tasks[m]));
                    }
                }
                assert(has_task(post.tasks, p));
            }
        }
        assert forall|x: int|
            0 <= x < post.tasks.len() implies (#[trigger] post.tasks[x]).wf() && post.tasks[x].tags
            == Seq::<Seq<char>>::empty() by {
            let m = choose|m: int|
                0 <= m < pre.tasks.len() && pre.tasks[m] == #[trigger] post.tasks[x] && !doomed(
                    pre.tasks,
                    s,
                    pre.tasks[m],
                );
            assert(pre.tasks[m].wf());
        }
        assert forall|x: int, y: int| 0 <= x < y < post.links.len() implies !((
        #[trigger] post.links[x]).task_id == (#[trigger] post.links[y]).task_id
            && post.links[x].tag_id == post.links[y].tag_id) by {
            lemma_live_links_distinct(pre.links, live, x, y);
        }
        assert forall|x: int| 0 <= x < post.links.len() implies has_task(
            post.tasks,
            (#[trigger] post.links[x]).task_id,
        ) && has_tag(post.tags, post.links[x].tag_id) by {
            let m = choose|m: int|
                0 <= m < pre.links.len() && pre.links[m] == #[trigger] post.links[x];
            assert(has_tag(pre.tags, pre.links[m].tag_id));
            lemma_live_links_member(pre.links, live, x);
        }
        assert(post.wf());
    }
}

/// A kept link row's task is alive.
proof fn lemma_live_links_member(links: Seq<LinkView>, live: Seq<TaskView>, k: int)
    requires
        0 <= k < links_for_live(links, live).len(),
    ensures
        has_task(live, links_for_live(links, live)[k].task_id),
    decreases links.len(),
{
    let r = links_for_live(links, live);
    let rest = links_for_live(links.drop_last(), live);
    if k < rest.len() {
        lemma_live_links_member(links.drop_last(), live, k);
    } else {
        assert(r[k] == links.last());
    }
}

} // verus!
