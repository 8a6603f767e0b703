//! The store: four in-memory tables under one handle, with the invariant
//! every repository operation preserves, and the idempotent seeding of the
//! fixed smart-list rows at startup.

use vstd::prelude::*;
use crate::clock::now_timestamp;
use crate::models::list::{List, ListView, SmartListType};
use crate::models::tag::{Tag, TagView};
use crate::models::task::{Task, TaskView};
use crate::text::str_eq;

verus! {

/// One task-to-tag association row.
#[derive(Debug)]
pub struct TaskTag {
    pub task_id: String,
    pub tag_id: String,
}

/// The mathematical image of an association row.
#[verifier::ext_equal]
pub ghost struct LinkView {
    pub task_id: Seq<char>,
    pub tag_id: Seq<char>,
}

impl View for TaskTag {
    type V = LinkView;

    open spec fn view(&self) -> LinkView {
        LinkView { task_id: self.task_id@, tag_id: self.tag_id@ }
    }
}

impl DeepView for TaskTag {
    type V = LinkView;

    open spec fn deep_view(&self) -> LinkView {
        self.view()
    }
}

impl Clone for TaskTag {
    fn clone(&self) -> (res: Self)
        ensures
            res@ == self@,
    {
        TaskTag { task_id: self.task_id.clone(), tag_id: self.tag_id.clone() }
    }
}

/// The store: tasks, lists, tags, and the task-to-tag association table.
/// Task rows keep their `tags` field empty; the association table is the
/// sole carrier of tag sets, and queries hydrate results from it.
#[derive(Debug)]
pub struct Database {
    pub tasks: Vec<Task>,
    pub lists: Vec<List>,
    pub tags: Vec<Tag>,
    pub links: Vec<TaskTag>,
}

/// The mathematical image of the whole store.
#[verifier::ext_equal]
pub ghost struct DatabaseView {
    pub tasks: Seq<TaskView>,
    pub lists: Seq<ListView>,
    pub tags: Seq<TagView>,
    pub links: Seq<LinkView>,
}

impl View for Database {
    type V = DatabaseView;

    open spec fn view(&self) -> DatabaseView {
        DatabaseView {
            tasks: self.tasks.deep_view(),
            lists: self.lists.deep_view(),
            tags: self.tags.deep_view(),
            links: self.links.deep_view(),
        }
    }
}

/// Whether some task row carries this id.
pub open spec fn has_task(tasks: Seq<TaskView>, id: Seq<char>) -> bool {
    exists|i: int| 0 <= i < tasks.len() && #[trigger] tasks[i].id == id
}

/// The task row carrying this id (meaningful under id uniqueness).
pub open spec fn task_at(tasks: Seq<TaskView>, id: Seq<char>) -> TaskView {
    tasks[choose|i: int| 0 <= i < tasks.len() && #[trigger] tasks[i].id == id]
}

pub open spec fn has_list(lists: Seq<ListView>, id: Seq<char>) -> bool {
    exists|i: int| 0 <= i < lists.len() && #[trigger] lists[i].id == id
}

pub open spec fn list_at(lists: Seq<ListView>, id: Seq<char>) -> ListView {
    lists[choose|i: int| 0 <= i < lists.len() && #[trigger] lists[i].id == id]
}

pub open spec fn has_tag(tags: Seq<TagView>, id: Seq<char>) -> bool {
    exists|i: int| 0 <= i < tags.len() && #[trigger] tags[i].id == id
}

pub open spec fn tag_at(tags: Seq<TagView>, id: Seq<char>) -> TagView {
    tags[choose|i: int| 0 <= i < tags.len() && #[trigger] tags[i].id == id]
}

/// Whether some tag row carries this name (names are unique).
pub open spec fn has_tag_name(tags: Seq<TagView>, name: Seq<char>) -> bool {
    exists|i: int| 0 <= i < tags.len() && #[trigger] tags[i].name == name
}

/// Whether the association table holds the pair (task, tag).
pub open spec fn has_link(links: Seq<LinkView>, task_id: Seq<char>, tag_id: Seq<char>) -> bool {
    exists|i: int|
        0 <= i < links.len() && #[trigger] links[i].task_id == task_id && links[i].tag_id == tag_id
}

/// The tag ids associated with a task, in association-row order.
pub open spec fn tag_list_for(links: Seq<LinkView>, task_id: Seq<char>) -> Seq<Seq<char>>
    decreases links.len(),
{
    if links.len() == 0 {
        Seq::empty()
    } else {
        tag_list_for(links.drop_last(), task_id) + if links.last().task_id == task_id {
            seq![links.last().tag_id]
        } else {
            Seq::empty()
        }
    }
}

/// A task row with its tag set read from the association table.
pub open spec fn hydrated(t: TaskView, links: Seq<LinkView>) -> TaskView {
    TaskView { tags: tag_list_for(links, t.id), ..t }
}

/// A task value as it is stored: the tag set lives in the association
/// table, so the row's own `tags` field is empty.
pub open spec fn bare(t: TaskView) -> TaskView {
    TaskView { tags: Seq::empty(), ..t }
}

impl DatabaseView {
    pub open spec fn tasks_unique(self) -> bool {
        forall|i: int, j: int|
            0 <= i < j < self.tasks.len() ==> (#[trigger] self.tasks[i]).id
                != (#[trigger] self.tasks[j]).id
    }

    pub open spec fn lists_unique(self) -> bool {
        forall|i: int, j: int|
            0 <= i < j < self.lists.len() ==> (#[trigger] self.lists[i]).id
                != (#[trigger] self.lists[j]).id
    }

    pub open spec fn tags_unique(self) -> bool {
        &&& forall|i: int, j: int|
            0 <= i < j < self.tags.len() ==> (#[trigger] self.tags[i]).id
                != (#[trigger] self.tags[j]).id
        &&& forall|i: int, j: int|
            0 <= i < j < self.tags.len() ==> (#[trigger] self.tags[i]).name
                != (#[trigger] self.tags[j]).name
    }

    pub open spec fn links_unique(self) -> bool {
        forall|i: int, j: int|
            0 <= i < j < self.links.len() ==> !((#[trigger] self.links[i]).task_id
                == (#[trigger] self.links[j]).task_id && self.links[i].tag_id
                == self.links[j].tag_id)
    }

    /// Referential integrity: tasks point at existing lists and parents,
    /// tags at existing parent tags, association rows at existing rows.
    pub open spec fn refs_ok(self) -> bool {
        &&& forall|i: int|
            0 <= i < self.tasks.len() ==> has_list(self.lists, (#[trigger] self.tasks[i]).list_id)
        &&& forall|i: int|
            0 <= i < self.tasks.len() ==> ((#[trigger] self.tasks[i]).parent_id matches Some(p)
                ==> has_task(self.tasks, p))
        &&& forall|i: int|
            0 <= i < self.tags.len() ==> ((#[trigger] self.tags[i]).parent_id matches Some(p)
                ==> has_tag(self.tags, p))
        &&& forall|i: int|
            0 <= i < self.links.len() ==> has_task(self.tasks, (#[trigger] self.links[i]).task_id)
                && has_tag(self.tags, self.links[i].tag_id)
    }

    /// Every stored task row is consistent (completed iff stamped) and
    /// keeps its `tags` field empty.
    pub open spec fn rows_ok(self) -> bool {
        forall|i: int|
            0 <= i < self.tasks.len() ==> (#[trigger] self.tasks[i]).wf() && self.tasks[i].tags
                == Seq::<Seq<char>>::empty()
    }

    /// The store invariant.
    pub open spec fn wf(self) -> bool {
        &&& self.tasks_unique()
        &&& self.lists_unique()
        &&& self.tags_unique()
        &&& self.links_unique()
        &&& self.refs_ok()
        &&& self.rows_ok()
    }
}

/// Under id uniqueness, `task_at` picks exactly the row at a known index.
pub proof fn lemma_task_at(tasks: Seq<TaskView>, i: int)
    requires
        forall|a: int, b: int|
            0 <= a < b < tasks.len() ==> (#[trigger] tasks[a]).id != (#[trigger] tasks[b]).id,
        0 <= i < tasks.len(),
    ensures
        has_task(tasks, tasks[i].id),
        task_at(tasks, tasks[i].id) == tasks[i],
{
    let id = tasks[i].id;
    assert(has_task(tasks, id));
    let j = choose|j: int| 0 <= j < tasks.len() && #[trigger] tasks[j].id == id;
    if i < j {
        assert(tasks[i].id != tasks[j].id);
    } else if j < i {
        assert(tasks[j].id != tasks[i].id);
    }
}

pub proof fn lemma_list_at(lists: Seq<ListView>, i: int)
    requires
        forall|a: int, b: int|
            0 <= a < b < lists.len() ==> (#[trigger] lists[a]).id != (#[trigger] lists[b]).id,
        0 <= i < lists.len(),
    ensures
        has_list(lists, lists[i].id),
        list_at(lists, lists[i].id) == lists[i],
{
    let id = lists[i].id;
    assert(has_list(lists, id));
    let j = choose|j: int| 0 <= j < lists.len() && #[trigger] lists[j].id == id;
    if i < j {
        assert(lists[i].id != lists[j].id);
    } else if j < i {
        assert(lists[j].id != lists[i].id);
    }
}

pub proof fn lemma_tag_at(tags: Seq<TagView>, i: int)
    requires
        forall|a: int, b: int|
            0 <= a < b < tags.len() ==> (#[trigger] tags[a]).id != (#[trigger] tags[b]).id,
        0 <= i < tags.len(),
    ensures
        has_tag(tags, tags[i].id),
        tag_at(tags, tags[i].id) == tags[i],
{
    let id = tags[i].id;
    assert(has_tag(tags, id));
    let j = choose|j: int| 0 <= j < tags.len() && #[trigger] tags[j].id == id;
    if i < j {
        assert(tags[i].id != tags[j].id);
    } else if j < i {
        assert(tags[j].id != tags[i].id);
    }
}

impl Database {
    /// Index of the task row with this id, if present.
    pub(crate) fn find_task(&self, id: &str) -> (r: Option<usize>)
        ensures
            match r {
                Some(i) => i < self.tasks.len() && self@.tasks[i as int].id == id@,
                None => !has_task(self@.tasks, id@),
            },
    {
        let mut j: usize = 0;
        while j < self.tasks.len()
            invariant
                j <= self.tasks.len(),
                forall|k: int| 0 <= k < j ==> (#[trigger] self@.tasks[k]).id != id@,
            decreases self.tasks.len() - j,
        {
            if str_eq(self.tasks[j].id.as_str(), id) {
                return Some(j);
            }
            j = j + 1;
        }
        None
    }

    pub(crate) fn find_list(&self, id: &str) -> (r: Option<usize>)
        ensures
            match r {
                Some(i) => i < self.lists.len() && self@.lists[i as int].id == id@,
                None => !has_list(self@.lists, id@),
            },
    {
        let mut j: usize = 0;
        while j < self.lists.len()
            invariant
                j <= self.lists.len(),
                forall|k: int| 0 <= k < j ==> (#[trigger] self@.lists[k]).id != id@,
            decreases self.lists.len() - j,
        {
            if str_eq(self.lists[j].id.as_str(), id) {
                return Some(j);
            }
            j = j + 1;
        }
        None
    }

    pub(crate) fn find_tag(&self, id: &str) -> (r: Option<usize>)
        ensures
            match r {
                Some(i) => i < self.tags.len() && self@.tags[i as int].id == id@,
                None => !has_tag(self@.tags, id@),
            },
    {
        let mut j: usize = 0;
        while j < self.tags.len()
            invariant
                j <= self.tags.len(),
                forall|k: int| 0 <= k < j ==> (#[trigger] self@.tags[k]).id != id@,
            decreases self.tags.len() - j,
        {
            if str_eq(self.tags[j].id.as_str(), id) {
                return Some(j);
            }
            j = j + 1;
        }
        None
    }

    pub(crate) fn find_tag_by_name(&self, name: &str) -> (r: Option<usize>)
        ensures
            match r {
                Some(i) => i < self.tags.len() && self@.tags[i as int].name == name@,
                None => !has_tag_name(self@.tags, name@),
            },
    {
        let mut j: usize = 0;
        while j < self.tags.len()
            invariant
                j <= self.tags.len(),
                forall|k: int| 0 <= k < j ==> (#[trigger] self@.tags[k]).name != name@,
            decreases self.tags.len() - j,
        {
            if str_eq(self.tags[j].name.as_str(), name) {
                return Some(j);
            }
            j = j + 1;
        }
        None
    }

    /// Whether the association table holds the pair (task, tag).
    pub(crate) fn link_present(&self, task_id: &str, tag_id: &str) -> (r: bool)
        ensures
            r == has_link(self@.links, task_id@, tag_id@),
    {
        let mut j: usize = 0;
        while j < self.links.len()
            invariant
                j <= self.links.len(),
                forall|k: int|
                    0 <= k < j ==> !((#[trigger] self@.links[k]).task_id == task_id@
                        && self@.links[k].tag_id == tag_id@),
            decreases self.links.len() - j,
        {
            if str_eq(self.links[j].task_id.as_str(), task_id) && str_eq(
                self.links[j].tag_id.as_str(),
                tag_id,
            ) {
                proof {
                    assert(self@.links[j as int].task_id == task_id@ && self@.links[j as int].tag_id
                        == tag_id@);
                }
                return true;
            }
            j = j + 1;
        }
        false
    }

    /// The tag ids associated with a task, in association-row order.
    pub(crate) fn task_tag_ids(&self, task_id: &str) -> (r: Vec<String>)
        ensures
            r.deep_view() == tag_list_for(self@.links, task_id@),
    {
        let mut out: Vec<String> = Vec::new();
        let mut j: usize = 0;
        proof {
            assert(self@.links.take(0) =~= Seq::<LinkView>::empty());
            assert(out.deep_view() =~= tag_list_for(self@.links.take(0), task_id@));
        }
        while j < self.links.len()
            invariant
                j <= self.links.len(),
                out.deep_view() == tag_list_for(self@.links.take(j as int), task_id@),
            decreases self.links.len() - j,
        {
            let ghost prefix = self@.links.take(j as int);
            let ghost before = out.deep_view();
            if str_eq(self.links[j].task_id.as_str(), task_id) {
                out.push(self.links[j].tag_id.clone());
            }
            proof {
                let stepped = self@.links.take(j as int + 1);
                assert(stepped.drop_last() =~= prefix);
                assert(stepped.last() == self@.links[j as int]);
                if self@.links[j as int].task_id == task_id@ {
                    assert(out.deep_view() =~= before + seq![self@.links[j as int].tag_id]);
                } else {
                    assert(out.deep_view() =~= before);
                }
            }
            j = j + 1;
        }
        proof {
            assert(self@.links.take(self.links.len() as int) =~= self@.links);
        }
        out
    }

    /// A hydrated copy of the task row at a known index.
    pub(crate) fn hydrated_row(&self, i: usize) -> (r: Task)
        requires
            i < self.tasks.len(),
        ensures
            r@ == hydrated(self@.tasks[i as int], self@.links),
    {
        let mut t = self.tasks[i].clone();
        let tag_ids = self.task_tag_ids(t.id.as_str());
        t.tags = tag_ids;
        proof {
            assert(t@ =~= hydrated(self@.tasks[i as int], self@.links));
        }
        t
    }
}

/// The lists table without any row carrying this id.
pub open spec fn without_list(lists: Seq<ListView>, id: Seq<char>) -> Seq<ListView>
    decreases lists.len(),
{
    if lists.len() == 0 {
        Seq::empty()
    } else {
        without_list(lists.drop_last(), id) + if lists.last().id == id {
            Seq::empty()
        } else {
            seq![lists.last()]
        }
    }
}

/// The lists table after an upsert: any row with the same id is dropped,
/// then the new row is appended.
pub open spec fn upserted(lists: Seq<ListView>, l: ListView) -> Seq<ListView> {
    without_list(lists, l.id).push(l)
}

/// What dropping an id keeps: exactly the other rows, in order.
pub proof fn lemma_without_list(lists: Seq<ListView>, id: Seq<char>)
    ensures
        forall|k: int|
            0 <= k < without_list(lists, id).len() ==> (#[trigger] without_list(lists, id)[k]).id
                != id,
        forall|k: int|
            0 <= k < without_list(lists, id).len() ==> exists|m: int|
                0 <= m < lists.len() && lists[m] == #[trigger] without_list(lists, id)[k],
        forall|m: int|
            0 <= m < lists.len() && (#[trigger] lists[m]).id != id ==> has_list(
                without_list(lists, id),
                lists[m].id,
            ),
    decreases lists.len(),
{
    let r = without_list(lists, id);
    if lists.len() > 0 {
        lemma_without_list(lists.drop_last(), id);
        let rest = without_list(lists.drop_last(), id);
        assert forall|k: int| 0 <= k < r.len() implies exists|m: int|
            0 <= m < lists.len() && lists[m] == #[trigger] r[k] by {
            if k < rest.len() {
                assert(r[k] == rest[k]);
                let m = choose|m: int|
                    0 <= m < lists.drop_last().len() && lists.drop_last()[m] == rest[k];
                assert(lists[m] == r[k]);
            } else {
                assert(r[k] == lists.last());
                assert(lists[lists.len() - 1] == r[k]);
            }
        }
        assert forall|m: int| 0 <= m < lists.len() && (#[trigger] lists[m]).id != id implies
            has_list(r, lists[m].id) by {
            if m < lists.len() - 1 {
                assert(lists.drop_last()[m] == lists[m]);
                assert(has_list(rest, lists[m].id));
                let k = choose|k: int| 0 <= k < rest.len() && #[trigger] rest[k].id == lists[m].id;
                assert(r[k] == rest[k]);
                assert(has_list(r, lists[m].id));
            } else {
                assert(r[r.len() - 1] == lists.last());
                assert(has_list(r, lists[m].id));
            }
        }
    }
}

/// An upsert keeps list ids unique and never loses an id.
pub proof fn lemma_upserted(lists: Seq<ListView>, l: ListView)
    requires
        forall|a: int, b: int|
            0 <= a < b < lists.len() ==> (#[trigger] lists[a]).id != (#[trigger] lists[b]).id,
    ensures
        forall|a: int, b: int|
            0 <= a < b < upserted(lists, l).len() ==> (#[trigger] upserted(lists, l)[a]).id
                != (#[trigger] upserted(lists, l)[b]).id,
        forall|x: Seq<char>|
            #[trigger] has_list(upserted(lists, l), x) <==> (x == l.id || has_list(lists, x)),
{
    lemma_without_list(lists, l.id);
    let w = without_list(lists, l.id);
    let u = upserted(lists, l);
    assert forall|a: int, b: int| 0 <= a < b < u.len() implies (#[trigger] u[a]).id
        != (#[trigger] u[b]).id by {
        if b < w.len() {
            lemma_without_list_distinct(lists, l.id, a, b);
        } else {
            assert(u[b] == l);
            assert(u[a] == w[a]);
            assert(w[a].id != l.id);
        }
    }
    assert forall|x: Seq<char>| #[trigger] has_list(u, x) implies (x == l.id || has_list(
        lists,
        x,
    )) by {
        let k = choose|k: int| 0 <= k < u.len() && #[trigger] u[k].id == x;
        if k < w.len() {
            let m = choose|m: int| 0 <= m < lists.len() && lists[m] == w[k];
            assert(lists[m].id == x);
            assert(has_list(lists, x));
        }
    }
    assert forall|x: Seq<char>| (x == l.id || has_list(lists, x)) implies #[trigger] has_list(
        u,
        x,
    ) by {
        if x == l.id {
            assert(u[u.len() - 1].id == x);
        } else {
            let m = choose|m: int| 0 <= m < lists.len() && #[trigger] lists[m].id == x;
            assert(has_list(w, lists[m].id));
            let k = choose|k: int| 0 <= k < w.len() && #[trigger] w[k].id == x;
            assert(u[k].id == x);
        }
    }
}

/// Two positions of the filtered table never hold one and the same source
/// row twice.
pub(crate) proof fn lemma_without_list_distinct(lists: Seq<ListView>, id: Seq<char>, a: int, b: int)
    requires
        forall|x: int, y: int|
            0 <= x < y < lists.len() ==> (#[trigger] lists[x]).id != (#[trigger] lists[y]).id,
        0 <= a < b < without_list(lists, id).len(),
    ensures
        without_list(lists, id)[a].id != without_list(lists, id)[b].id,
    decreases lists.len(),
{
    let r = without_list(lists, id);
    let rest = without_list(lists.drop_last(), id);
    lemma_without_list(lists.drop_last(), id);
    if b < rest.len() {
        lemma_without_list_distinct(lists.drop_last(), id, a, b);
    } else {
        // b is the kept last row; a comes from the front of the table
        assert(r[b] == lists.last());
        assert(r[a] == rest[a]);
        let m = choose|m: int|
            0 <= m < lists.drop_last().len() && lists.drop_last()[m] == rest[a];
        assert(lists[m] == r[a]);
        assert(lists[m].id != lists[lists.len() - 1].id);
    }
}

/// The canonical smart-list rows in their fixed startup order.
pub open spec fn smart_list_row(t: SmartListType, now: i64) -> ListView {
    ListView {
        id: t.spec_id(),
        name: t.spec_name(),
        icon: t.spec_icon(),
        color: "#3B82F6"@,
        is_smart: true,
        order: t.spec_order(),
        created_at: now,
    }
}

/// The order the seeding walks the smart lists in.
pub open spec fn smart_seed_order() -> Seq<SmartListType> {
    seq![
        SmartListType::All,
        SmartListType::Today,
        SmartListType::Week,
        SmartListType::Inbox,
        SmartListType::Completed,
        SmartListType::Trash,
    ]
}

/// The lists table after the first `k` canonical rows are upserted in order.
pub open spec fn seeded_lists(lists: Seq<ListView>, k: int, now: i64) -> Seq<ListView>
    decreases k,
{
    if k <= 0 {
        lists
    } else {
        upserted(seeded_lists(lists, k - 1, now), smart_list_row(smart_seed_order()[k - 1], now))
    }
}

/// Seeding keeps list ids unique and never loses an id.
pub proof fn lemma_seeded_lists(lists: Seq<ListView>, k: int, now: i64)
    requires
        forall|a: int, b: int|
            0 <= a < b < lists.len() ==> (#[trigger] lists[a]).id != (#[trigger] lists[b]).id,
        0 <= k <= 6,
    ensures
        forall|a: int, b: int|
            0 <= a < b < seeded_lists(lists, k, now).len() ==> (#[trigger] seeded_lists(
                lists,
                k,
                now,
            )[a]).id != (#[trigger] seeded_lists(lists, k, now)[b]).id,
        forall|x: Seq<char>|
            has_list(lists, x) ==> #[trigger] has_list(seeded_lists(lists, k, now), x),
    decreases k,
{
    if k > 0 {
        lemma_seeded_lists(lists, k - 1, now);
        lemma_upserted(seeded_lists(lists, k - 1, now), smart_list_row(smart_seed_order()[k - 1], now));
    }
}

impl Database {
    /// Replaces any list row with the same id by `l`, appending it.
    fn upsert_list(&mut self, l: List)
        ensures
            final(self)@ == (DatabaseView { lists: upserted(old(self)@.lists, l@), ..old(self)@ }),
    {
        let ghost lv = l@;
        let ghost orig = old(self)@;
        let mut kept: Vec<List> = Vec::new();
        let mut j: usize = 0;
        proof {
            assert(orig.lists.take(0) =~= Seq::<ListView>::empty());
            assert(kept.deep_view() =~= without_list(orig.lists.take(0), lv.id));
        }
        while j < self.lists.len()
            invariant
                j <= self.lists.len(),
                self.lists.deep_view() == orig.lists,
                kept.deep_view() == without_list(orig.lists.take(j as int), lv.id),
                lv == l@,
            decreases self.lists.len() - j,
        {
            let ghost prefix = orig.lists.take(j as int);
            let ghost before = kept.deep_view();
            if !str_eq(self.lists[j].id.as_str(), l.id.as_str()) {
                kept.push(self.lists[j].clone());
            }
            proof {
                let stepped = orig.lists.take(j as int + 1);
                assert(stepped.drop_last() =~= prefix);
                assert(stepped.last() == orig.lists[j as int]);
                if orig.lists[j as int].id == lv.id {
                    assert(kept.deep_view() =~= before);
                } else {
                    assert(kept.deep_view() =~= before + seq![orig.lists[j as int]]);
                }
            }
            j = j + 1;
        }
        proof {
            assert(orig.lists.take(self.lists.len() as int) =~= orig.lists);
        }
        kept.push(l);
        self.lists = kept;
        proof {
            assert(self@ =~= (DatabaseView { lists: upserted(orig.lists, lv), ..orig }));
        }
    }

    /// Re-asserts the canonical smart-list rows: an unconditional upsert of
    /// each fixed row, so deleted or altered smart lists self-heal at every
    /// startup. User lists are untouched.
    pub fn init_smart_lists(&mut self, now: i64)
        ensures
            final(self)@ == (DatabaseView {
                lists: seeded_lists(old(self)@.lists, 6, now),
                ..old(self)@
            }),
    {
        let ghost orig = old(self)@;
        let kinds: [SmartListType; 6] = [
            SmartListType::All,
            SmartListType::Today,
            SmartListType::Week,
            SmartListType::Inbox,
            SmartListType::Completed,
            SmartListType::Trash,
        ];
        proof {
            assert(kinds@ =~= smart_seed_order());
        }
        let mut k: usize = 0;
        while k < 6
            invariant
                k <= 6,
                kinds@ == smart_seed_order(),
                self.tasks.deep_view() == orig.tasks,
                self.tags.deep_view() == orig.tags,
                self.links.deep_view() == orig.links,
                self.lists.deep_view() == seeded_lists(orig.lists, k as int, now),
            decreases 6 - k,
        {
            let t = kinds[k];
            let mut row = List::new_smart(t);
            row.order = t.order_index();
            row.created_at = now;
            proof {
                assert(row@ =~= smart_list_row(smart_seed_order()[k as int], now));
            }
            self.upsert_list(row);
            k = k + 1;
        }
        proof {
            assert(self@ =~= (DatabaseView { lists: seeded_lists(orig.lists, 6, now), ..orig }));
        }
    }

    /// An empty store seeded with the smart lists, stamped `now`.
    pub fn new_at(now: i64) -> (db: Database)
        ensures
            db@.wf(),
            db@.tasks == Seq::<TaskView>::empty(),
            db@.tags == Seq::<TagView>::empty(),
            db@.links == Seq::<LinkView>::empty(),
            db@.lists == seeded_lists(Seq::empty(), 6, now),
    {
        let mut db = Database {
            tasks: Vec::new(),
            lists: Vec::new(),
            tags: Vec::new(),
            links: Vec::new(),
        };
        proof {
            assert(db@.tasks =~= Seq::<TaskView>::empty());
            assert(db@.tags =~= Seq::<TagView>::empty());
            assert(db@.links =~= Seq::<LinkView>::empty());
            assert(db@.lists =~= Seq::<ListView>::empty());
        }
        db.init_smart_lists(now);
        proof {
            lemma_seeded_lists(Seq::empty(), 6, now);
        }
        db
    }

    /// An empty store seeded with the smart lists, stamped with the
    /// current time.
    pub fn new() -> (db: Database)
        ensures
            db@.wf(),
            db@.tasks == Seq::<TaskView>::empty(),
            db@.tags == Seq::<TagView>::empty(),
            db@.links == Seq::<LinkView>::empty(),
            exists|now: i64| db@.lists == #[trigger] seeded_lists(Seq::empty(), 6, now),
    {
        let now: i64 = now_timestamp();
        Database::new_at(now)
    }
}

} // verus!
