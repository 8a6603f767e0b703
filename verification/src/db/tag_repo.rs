//! Tag repository. Names are unique across the store; a tag may sit under
//! a parent tag. Deleting a tag drops its association rows and detaches
//! its child tags (their parent becomes empty), as the storage layer's
//! referential actions prescribe.

use vstd::prelude::*;
use vstd::pervasive::VecAdditionalExecFns;
use crate::db::connection::{
    has_tag, has_tag_name, has_task, lemma_tag_at, tag_at, Database, DatabaseView, LinkView,
    TaskTag,
};
use crate::db::sorting::{sort_tags, tags_in_order};
use crate::error::{fails_conflict, fails_not_found, fails_storage, AppError, EntityKind};
use crate::models::tag::{Tag, TagView};
use crate::text::str_eq;

verus! {

/// Operations over tag records.
pub struct TagRepository;

/// The tags table without any row carrying this id.
pub open spec fn without_tag(tags: Seq<TagView>, id: Seq<char>) -> Seq<TagView>
    decreases tags.len(),
{
    if tags.len() == 0 {
        Seq::empty()
    } else {
        without_tag(tags.drop_last(), id) + if tags.last().id == id {
            Seq::empty()
        } else {
            seq![tags.last()]
        }
    }
}

/// The tags table with every child of this id detached: a removed parent
/// leaves its children top-level.
pub open spec fn detach_parents(tags: Seq<TagView>, id: Seq<char>) -> Seq<TagView> {
    Seq::new(
        tags.len(),
        |i: int|
            if tags[i].parent_id == Some(id) {
                TagView { parent_id: None, ..tags[i] }
            } else {
                tags[i]
            },
    )
}

/// The association table without every row of one tag.
pub open spec fn without_tag_links(links: Seq<LinkView>, tag_id: Seq<char>) -> Seq<LinkView>
    decreases links.len(),
{
    if links.len() == 0 {
        Seq::empty()
    } else {
        without_tag_links(links.drop_last(), tag_id) + if links.last().tag_id == tag_id {
            Seq::empty()
        } else {
            seq![links.last()]
        }
    }
}

/// The tags table after one row's mutable columns are rewritten: name,
/// color, parent and the pinned flag; identity and creation stamp are
/// immutable.
pub open spec fn tag_rewritten(tags: Seq<TagView>, t: TagView) -> Seq<TagView> {
    Seq::new(
        tags.len(),
        |i: int|
            if tags[i].id == t.id {
                TagView {
                    name: t.name,
                    color: t.color,
                    parent_id: t.parent_id,
                    is_pinned: t.is_pinned,
                    ..tags[i]
                }
            } else {
                tags[i]
            },
    )
}

/// No other tag row carries this entity's name.
pub open spec fn name_free_for(tags: Seq<TagView>, t: TagView) -> bool {
    forall|i: int| 0 <= i < tags.len() && (#[trigger] tags[i]).name == t.name ==> tags[i].id == t.id
}

/// Every row the filter keeps comes from the source table, and every
/// other id stays present.
proof fn lemma_without_tag(tags: Seq<TagView>, id: Seq<char>)
    ensures
        forall|k: int|
            0 <= k < without_tag(tags, id).len() ==> exists|m: int|
                0 <= m < tags.len() && tags[m] == #[trigger] without_tag(tags, id)[k],
        forall|k: int|
            0 <= k < without_tag(tags, id).len() ==> (#[trigger] without_tag(tags, id)[k]).id != id,
        forall|m: int|
            0 <= m < tags.len() && (#[trigger] tags[m]).id != id ==> has_tag(
                without_tag(tags, id),
                tags[m].id,
            ),
    decreases tags.len(),
{
    let r = without_tag(tags, id);
    if tags.len() > 0 {
        lemma_without_tag(tags.drop_last(), id);
        let rest = without_tag(tags.drop_last(), id);
        assert forall|k: int| 0 <= k < r.len() implies exists|m: int|
            0 <= m < tags.len() && tags[m] == #[trigger] r[k] by {
            if k < rest.len() {
                assert(r[k] == rest[k]);
                let m = choose|m: int|
                    0 <= m < tags.drop_last().len() && tags.drop_last()[m] == rest[k];
                assert(tags[m] == r[k]);
            } else {
                assert(r[k] == tags.last());
                assert(tags[tags.len() - 1] == r[k]);
            }
        }
        assert forall|m: int| 0 <= m < tags.len() && (#[trigger] tags[m]).id != id implies has_tag(
            r,
            tags[m].id,
        ) by {
            if m < tags.len() - 1 {
                assert(tags.drop_last()[m] == tags[m]);
                assert(has_tag(rest, tags[m].id));
                let k = choose|k: int| 0 <= k < rest.len() && #[trigger] rest[k].id == tags[m].id;
                assert(r[k] == rest[k]);
                assert(has_tag(r, tags[m].id));
            } else {
                assert(r[r.len() - 1] == tags.last());
                assert(has_tag(r, tags[m].id));
            }
        }
    }
}

/// Rows the filter keeps never repeat an id or a name.
proof fn lemma_without_tag_distinct(tags: Seq<TagView>, id: Seq<char>, a: int, b: int)
    requires
        forall|x: int, y: int|
            0 <= x < y < tags.len() ==> (#[trigger] tags[x]).id != (#[trigger] tags[y]).id,
        forall|x: int, y: int|
            0 <= x < y < tags.len() ==> (#[trigger] tags[x]).name != (#[trigger] tags[y]).name,
        0 <= a < b < without_tag(tags, id).len(),
    ensures
        without_tag(tags, id)[a].id != without_tag(tags, id)[b].id,
        without_tag(tags, id)[a].name != without_tag(tags, id)[b].name,
    decreases tags.len(),
{
    let r = without_tag(tags, id);
    let rest = without_tag(tags.drop_last(), id);
    lemma_without_tag(tags.drop_last(), id);
    if b < rest.len() {
        lemma_without_tag_distinct(tags.drop_last(), id, a, b);
    } else {
        assert(r[b] == tags.last());
        assert(r[a] == rest[a]);
        let m = choose|m: int| 0 <= m < tags.drop_last().len() && tags.drop_last()[m] == rest[a];
        assert(tags[m] == r[a]);
        assert(tags[m].id != tags[tags.len() - 1].id);
        assert(tags[m].name != tags[tags.len() - 1].name);
    }
}

/// Every link row the filter keeps comes from the source table.
proof fn lemma_without_tag_links(links: Seq<LinkView>, tag_id: Seq<char>)
    ensures
        forall|k: int|
            0 <= k < without_tag_links(links, tag_id).len() ==> exists|m: int|
                0 <= m < links.len() && links[m] == #[trigger] without_tag_links(links, tag_id)[k],
        forall|k: int|
            0 <= k < without_tag_links(links, tag_id).len() ==> (#[trigger] without_tag_links(
                links,
                tag_id,
            )[k]).tag_id != tag_id,
    decreases links.len(),
{
    let r = without_tag_links(links, tag_id);
    if links.len() > 0 {
        lemma_without_tag_links(links.drop_last(), tag_id);
        let rest = without_tag_links(links.drop_last(), tag_id);
        assert forall|k: int| 0 <= k < r.len() implies exists|m: int|
            0 <= m < links.len() && links[m] == #[trigger] r[k] by {
            if k < rest.len() {
                assert(r[k] == rest[k]);
                let m = choose|m: int|
                    0 <= m < links.drop_last().len() && links.drop_last()[m] == rest[k];
                assert(links[m] == r[k]);
            } else {
                assert(r[k] == links.last());
                assert(links[links.len() - 1] == r[k]);
            }
        }
    }
}

/// Kept link rows never repeat a pair.
proof fn lemma_without_tag_links_distinct(links: Seq<LinkView>, tag_id: Seq<char>, a: int, b: int)
    requires
        forall|x: int, y: int|
            0 <= x < y < links.len() ==> !((#[trigger] links[x]).task_id == (
            #[trigger] links[y]).task_id && links[x].tag_id == links[y].tag_id),
        0 <= a < b < without_tag_links(links, tag_id).len(),
    ensures
        !(without_tag_links(links, tag_id)[a].task_id == without_tag_links(links, tag_id)[b].task_id
            && without_tag_links(links, tag_id)[a].tag_id == without_tag_links(
            links,
            tag_id,
        )[b].tag_id),
    decreases links.len(),
{
    let r = without_tag_links(links, tag_id);
    let rest = without_tag_links(links.drop_last(), tag_id);
    lemma_without_tag_links(links.drop_last(), tag_id);
    if b < rest.len() {
        lemma_without_tag_links_distinct(links.drop_last(), tag_id, a, b);
    } else {
        assert(r[b] == links.last());
        assert(r[a] == rest[a]);
        let m = choose|m: int|
            0 <= m < links.drop_last().len() && links.drop_last()[m] == rest[a];
        assert(links[m] == r[a]);
        assert(!(links[m].task_id == links[links.len() - 1].task_id && links[m].tag_id
            == links[links.len() - 1].tag_id));
    }
}

impl TagRepository {
    /// Inserts a tag row: the id must be fresh, the name unused, and the
    /// parent (if named) an existing tag.
    pub fn create(db: &mut Database, tag: &Tag) -> (r: Result<Tag, AppError>)
        requires
            old(db)@.wf(),
        ensures
            final(db)@.wf(),
            r is Ok <==> (!has_tag(old(db)@.tags, tag@.id) && !has_tag_name(old(db)@.tags, tag@.name)
                && (tag@.parent_id matches Some(p) ==> has_tag(old(db)@.tags, p))),
            r is Ok ==> final(db)@ == (DatabaseView { tags: old(db)@.tags.push(tag@), ..old(db)@ }),
            r matches Ok(t) ==> t@ == tag@,
            r is Err ==> final(db)@ == old(db)@,
            has_tag(old(db)@.tags, tag@.id) ==> fails_conflict(r, EntityKind::Tag, tag@.id),
            !has_tag(old(db)@.tags, tag@.id) && has_tag_name(old(db)@.tags, tag@.name)
                ==> fails_conflict(r, EntityKind::Tag, tag@.name),
            !has_tag(old(db)@.tags, tag@.id) && !has_tag_name(old(db)@.tags, tag@.name)
                && tag@.parent_id is Some && !has_tag(old(db)@.tags, tag@.parent_id->Some_0)
                ==> fails_storage(r, EntityKind::Tag, tag@.parent_id->Some_0),
    {
        let ghost pre = db@;
        if db.find_tag(tag.id.as_str()).is_some() {
            return Err(AppError::Conflict(EntityKind::Tag, tag.id.clone()));
        }
        if db.find_tag_by_name(tag.name.as_str()).is_some() {
            return Err(AppError::Conflict(EntityKind::Tag, tag.name.clone()));
        }
        match &tag.parent_id {
            Some(p) => {
                if db.find_tag(p.as_str()).is_none() {
                    return Err(AppError::Storage(EntityKind::Tag, p.clone()));
                }
                proof {
                    assert(tag@.parent_id == Some(p@));
                    assert(has_tag(pre.tags, p@));
                }
            },
            None => {},
        }
        db.tags.push(tag.clone());
        proof {
            assert(db@.tags =~= pre.tags.push(tag@));
            assert(db@ =~= (DatabaseView { tags: pre.tags.push(tag@), ..pre }));
            let post = db@;
            assert forall|a: int, b: int| 0 <= a < b < post.tags.len() implies (
            #[trigger] post.tags[a]).id != (#[trigger] post.tags[b]).id by {
                if b < post.tags.len() - 1 {
                    assert(pre.tags[a].id != pre.tags[b].id);
                } else {
                    if pre.tags[a].id == tag@.id {
                        assert(has_tag(pre.tags, tag@.id));
                    }
                }
            }
            assert forall|a: int, b: int| 0 <= a < b < post.tags.len() implies (
            #[trigger] post.tags[a]).name != (#[trigger] post.tags[b]).name by {
                if b < post.tags.len() - 1 {
                    assert(pre.tags[a].name != pre.tags[b].name);
                } else {
                    if pre.tags[a].name == tag@.name {
                        assert(has_tag_name(pre.tags, tag@.name));
                    }
                }
            }
            assert forall|i: int|
                0 <= i < post.tags.len() implies ((#[trigger] post.tags[i]).parent_id
                matches Some(p) ==> has_tag(post.tags, p)) by {
                if post.tags[i].parent_id is Some {
                    let p = post.tags[i].parent_id->Some_0;
                    if i < post.tags.len() - 1 {
                        assert(has_tag(pre.tags, p));
                        let w = choose|w: int|
                            0 <= w < pre.tags.len() && #[trigger] pre.tags[w].id == p;
                        assert(post.tags[w].id == p);
                    } else {
                        let w = choose|w: int|
                            0 <= w < pre.tags.len() && #[trigger] pre.tags[w].id == p;
                        assert(post.tags[w].id == p);
                    }
                }
            }
            assert forall|i: int| 0 <= i < post.links.len() implies has_task(
                post.tasks,
                (#[trigger] post.links[i]).task_id,
            ) && has_tag(post.tags, post.links[i].tag_id) by {
                assert(has_tag(pre.tags, pre.links[i].tag_id));
                let w = choose|w: int|
                    0 <= w < pre.tags.len() && #[trigger] pre.tags[w].id == pre.links[i].tag_id;
                assert(post.tags[w].id == pre.links[i].tag_id);
            }
            assert(post.wf());
        }
        Ok(tag.clone())
    }

    /// Looks a tag up by id.
    pub fn get_by_id(db: &Database, tag_id: &str) -> (r: Result<Tag, AppError>)
        requires
            db@.wf(),
        ensures
            r is Ok <==> has_tag(db@.tags, tag_id@),
            r matches Ok(t) ==> t@ == tag_at(db@.tags, tag_id@),
            r is Err ==> fails_not_found(r, EntityKind::Tag, tag_id@),
    {
        match db.find_tag(tag_id) {
            Some(i) => {
                proof {
                    lemma_tag_at(db@.tags, i as int);
                }
                Ok(db.tags[i].clone())
            },
            None => Err(AppError::NotFound(EntityKind::Tag, tag_id.to_owned())),
        }
    }

    /// Every tag, ordered by name ascending.
    pub fn get_all(db: &Database) -> (r: Vec<Tag>)
        ensures
            r.deep_view() == tags_in_order(db@.tags),
    {
        sort_tags(&db.tags)
    }

    /// Rewrites a tag's name, color, parent and pinned flag by id; the
    /// name must not belong to another tag, and the parent (if named)
    /// must exist.
    pub fn update(db: &mut Database, tag: &Tag) -> (r: Result<Tag, AppError>)
        requires
            old(db)@.wf(),
        ensures
            final(db)@.wf(),
            r is Ok <==> (has_tag(old(db)@.tags, tag@.id) && name_free_for(old(db)@.tags, tag@) && (
            tag@.parent_id matches Some(p) ==> has_tag(old(db)@.tags, p))),
            r is Ok ==> final(db)@ == (DatabaseView {
                tags: tag_rewritten(old(db)@.tags, tag@),
                ..old(db)@
            }),
            r matches Ok(t) ==> t@ == tag@,
            r is Err ==> final(db)@ == old(db)@,
            !has_tag(old(db)@.tags, tag@.id) ==> fails_not_found(r, EntityKind::Tag, tag@.id),
            has_tag(old(db)@.tags, tag@.id) && !name_free_for(old(db)@.tags, tag@)
                ==> fails_conflict(r, EntityKind::Tag, tag@.name),
            has_tag(old(db)@.tags, tag@.id) && name_free_for(old(db)@.tags, tag@)
                && tag@.parent_id is Some && !has_tag(old(db)@.tags, tag@.parent_id->Some_0)
                ==> fails_storage(r, EntityKind::Tag, tag@.parent_id->Some_0),
    {
        let ghost pre = db@;
        let idx: usize = match db.find_tag(tag.id.as_str()) {
            Some(i) => i,
            None => {
                return Err(AppError::NotFound(EntityKind::Tag, tag.id.clone()));
            },
        };
        match db.find_tag_by_name(tag.name.as_str()) {
            Some(j) => {
                if !str_eq(db.tags[j].id.as_str(), tag.id.as_str()) {
                    proof {
                        assert(pre.tags[j as int].name == tag@.name && pre.tags[j as int].id
                            != tag@.id);
                    }
                    return Err(AppError::Conflict(EntityKind::Tag, tag.name.clone()));
                }
                proof {
                    assert forall|i: int|
                        0 <= i < pre.tags.len() && (#[trigger] pre.tags[i]).name == tag@.name
                        implies pre.tags[i].id == tag@.id by {
                        if i < j as int {
                            assert(pre.tags[i].name != pre.tags[j as int].name);
                        } else if (j as int) < i {
                            assert(pre.tags[j as int].name != pre.tags[i].name);
                        }
                    }
                }
            },
            None => {},
        }
        match &tag.parent_id {
            Some(p) => {
                if db.find_tag(p.as_str()).is_none() {
                    return Err(AppError::Storage(EntityKind::Tag, p.clone()));
                }
                proof {
                    assert(tag@.parent_id == Some(p@));
                    assert(has_tag(pre.tags, p@));
                }
            },
            None => {},
        }
        let mut row = db.tags[idx].clone();
        row.name = tag.name.clone();
        row.color = tag.color.clone();
        row.parent_id = tag.parent_id.clone();
        row.is_pinned = tag.is_pinned;
        db.tags.set(idx, row);
        proof {
            assert forall|m: int| 0 <= m < pre.tags.len() implies db@.tags[m] == tag_rewritten(
                pre.tags,
                tag@,
            )[m] by {
                if m != idx as int {
                    if pre.tags[m].id == tag@.id {
                        assert(pre.tags[m].id != pre.tags[idx as int].id);
                    }
                }
            }
            assert(db@.tags =~= tag_rewritten(pre.tags, tag@));
            assert(db@ =~= (DatabaseView { tags: tag_rewritten(pre.tags, tag@), ..pre }));
            let post = db@;
            assert forall|a: int, b: int| 0 <= a < b < post.tags.len() implies (
            #[trigger] post.tags[a]).id != (#[trigger] post.tags[b]).id by {
                assert(pre.tags[a].id != pre.tags[b].id);
            }
            assert forall|a: int, b: int| 0 <= a < b < post.tags.len() implies (
            #[trigger] post.tags[a]).name != (#[trigger] post.tags[b]).name by {
                if a != idx as int && b != idx as int {
                    assert(pre.tags[a].name != pre.tags[b].name);
                } else if a == idx as int {
                    if post.tags[b].name == tag@.name {
                        assert(pre.tags[b].id == tag@.id);
                        assert(pre.tags[b].id != pre.tags[idx as int].id);
                    }
                } else {
                    if post.tags[a].name == tag@.name {
                        assert(pre.tags[a].id == tag@.id);
                        assert(pre.tags[a].id != pre.tags[idx as int].id);
                    }
                }
            }
            assert forall|i: int|
                0 <= i < post.tags.len() implies ((#[trigger] post.tags[i]).parent_id
                matches Some(p) ==> has_tag(post.tags, p)) by {
                if post.tags[i].parent_id is Some {
                    let p = post.tags[i].parent_id->Some_0;
                    if i != idx as int {
                        assert(pre.tags[i].parent_id == Some(p));
                        assert(has_tag(pre.tags, p));
                    }
                    let w = choose|w: int| 0 <= w < pre.tags.len() && #[trigger] pre.tags[w].id == p;
                    assert(post.tags[w].id == p);
                }
            }
            assert forall|i: int| 0 <= i < post.links.len() implies has_task(
                post.tasks,
                (#[trigger] post.links[i]).task_id,
            ) && has_tag(post.tags, post.links[i].tag_id) by {
                assert(has_tag(pre.tags, pre.links[i].tag_id));
                let w = choose|w: int|
                    0 <= w < pre.tags.len() && #[trigger] pre.tags[w].id == pre.links[i].tag_id;
                assert(post.tags[w].id == pre.links[i].tag_id);
            }
            assert(post.wf());
        }
        Ok(tag.clone())
    }

    /// Deletes a tag by id: its association rows go with it, and its
    /// child tags are detached (left top-level).
    pub fn delete(db: &mut Database, tag_id: &str) -> (r: Result<(), AppError>)
        requires
            old(db)@.wf(),
        ensures
            final(db)@.wf(),
            r is Ok <==> has_tag(old(db)@.tags, tag_id@),
            r is Ok ==> final(db)@ == (DatabaseView {
                tags: detach_parents(without_tag(old(db)@.tags, tag_id@), tag_id@),
                links: without_tag_links(old(db)@.links, tag_id@),
                ..old(db)@
            }),
            r is Err ==> final(db)@ == old(db)@ && fails_not_found(r, EntityKind::Tag, tag_id@),
    {
        let ghost pre = db@;
        if db.find_tag(tag_id).is_none() {
            return Err(AppError::NotFound(EntityKind::Tag, tag_id.to_owned()));
        }

        // Drop the tag row.
        let mut kept: Vec<Tag> = Vec::new();
        let mut j: usize = 0;
        proof {
            assert(pre.tags.take(0) =~= Seq::<TagView>::empty());
            assert(kept.deep_view() =~= without_tag(pre.tags.take(0), tag_id@));
        }
        while j < db.tags.len()
            invariant
                j <= db.tags.len(),
                db@ == pre,
                kept.deep_view() == without_tag(pre.tags.take(j as int), tag_id@),
            decreases db.tags.len() - j,
        {
            let ghost before = kept.deep_view();
            if !str_eq(db.tags[j].id.as_str(), tag_id) {
                kept.push(db.tags[j].clone());
            }
            proof {
                let stepped = pre.tags.take(j as int + 1);
                assert(stepped.drop_last() =~= pre.tags.take(j as int));
                assert(stepped.last() == pre.tags[j as int]);
                if pre.tags[j as int].id == tag_id@ {
                    assert(kept.deep_view() =~= before);
                } else {
                    assert(kept.deep_view() =~= before + seq![pre.tags[j as int]]);
                }
            }
            j = j + 1;
        }
        proof {
            assert(pre.tags.take(db.tags.len() as int) =~= pre.tags);
        }
        db.tags = kept;
        let ghost shrunk = without_tag(pre.tags, tag_id@);

        // Detach children of the removed tag.
        let mut k: usize = 0;
        while k < db.tags.len()
            invariant
                k <= db.tags.len(),
                db@.tasks == pre.tasks,
                db@.lists == pre.lists,
                db@.links == pre.links,
                db@.tags.len() == shrunk.len(),
                forall|m: int|
                    0 <= m < k ==> db@.tags[m] == #[trigger] detach_parents(shrunk, tag_id@)[m],
                forall|m: int| k <= m < shrunk.len() ==> db@.tags[m] == #[trigger] shrunk[m],
            decreases db.tags.len() - k,
        {
            let detach: bool = match &db.tags[k].parent_id {
                Some(p) => str_eq(p.as_str(), tag_id),
                None => false,
            };
            if detach {
                let mut row = db.tags[k].clone();
                row.parent_id = None;
                db.tags.set(k, row);
            }
            k = k + 1;
        }
        proof {
            assert(db@.tags =~= detach_parents(shrunk, tag_id@));
        }

        // Drop the tag's association rows.
        let mut klinks: Vec<TaskTag> = Vec::new();
        let mut b: usize = 0;
        proof {
            assert(pre.links.take(0) =~= Seq::<LinkView>::empty());
            assert(klinks.deep_view() =~= without_tag_links(pre.links.take(0), tag_id@));
        }
        while b < db.links.len()
            invariant
                b <= db.links.len(),
                db@.links == pre.links,
                db@.tasks == pre.tasks,
                db@.lists == pre.lists,
                db@.tags == detach_parents(shrunk, tag_id@),
                klinks.deep_view() == without_tag_links(pre.links.take(b as int), tag_id@),
            decreases db.links.len() - b,
        {
            let ghost before = klinks.deep_view();
            if !str_eq(db.links[b].tag_id.as_str(), tag_id) {
                klinks.push(db.links[b].clone());
            }
            proof {
                let stepped = pre.links.take(b as int + 1);
                assert(stepped.drop_last() =~= pre.links.take(b as int));
                assert(stepped.last() == pre.links[b as int]);
                if pre.links[b as int].tag_id == tag_id@ {
                    assert(klinks.deep_view() =~= before);
                } else {
                    assert(klinks.deep_view() =~= before + seq![pre.links[b as int]]);
                }
            }
            b = b + 1;
        }
        proof {
            assert(pre.links.take(db.links.len() as int) =~= pre.links);
        }
        db.links = klinks;

        proof {
            let post = db@;
            assert(post =~= (DatabaseView {
                tags: detach_parents(shrunk, tag_id@),
                links: without_tag_links(pre.links, tag_id@),
                ..pre
            }));
            lemma_without_tag(pre.tags, tag_id@);
            lemma_without_tag_links(pre.links, tag_id@);
            assert forall|x: int, y: int| 0 <= x < y < post.tags.len() implies (
            #[trigger] post.tags[x]).id != (#[trigger] post.tags[y]).id && post.tags[x].name
                != post.tags[y].name by {
                lemma_without_tag_distinct(pre.tags, tag_id@, x, y);
                assert(post.tags[x].id == shrunk[x].id && post.tags[x].name == shrunk[x].name);
                assert(post.tags[y].id == shrunk[y].id && post.tags[y].name == shrunk[y].name);
            }
            assert forall|i: int|
                0 <= i < post.tags.len() implies ((#[trigger] post.tags[i]).parent_id
                matches Some(p) ==> has_tag(post.tags, p)) by {
                if post.tags[i].parent_id is Some {
                    let p = post.tags[i].parent_id->Some_0;
                    assert(shrunk[i].parent_id == Some(p) && p != tag_id@);
                    let m = choose|m: int| 0 <= m < pre.tags.len() && pre.tags[m] == shrunk[i];
                    assert(has_tag(pre.tags, p));
                    let w = choose|w: int| 0 <= w < pre.tags.len() && #[trigger] pre.tags[w].id == p;
                    assert(has_tag(shrunk, p));
                    let v = choose|v: int| 0 <= v < shrunk.len() && #[trigger] shrunk[v].id == p;
                    assert(post.tags[v].id == p);
                    assert(has_tag(post.tags, p));
                }
            }
            assert forall|x: int, y: int| 0 <= x < y < post.links.len() implies !((
            #[trigger] post.links[x]).task_id == (#[trigger] post.links[y]).task_id
                && post.links[x].tag_id == post.links[y].tag_id) by {
                lemma_without_tag_links_distinct(pre.links, tag_id@, x, y);
            }
            assert forall|x: int| 0 <= x < post.links.len() implies has_task(
                post.tasks,
                (#[trigger] post.links[x]).task_id,
            ) && has_tag(post.tags, post.links[x].tag_id) by {
                let m = choose|m: int|
                    0 <= m < pre.links.len() && pre.links[m] == #[trigger] post.links[x];
                assert(has_task(pre.tasks, pre.links[m].task_id));
                assert(has_tag(pre.tags, pre.links[m].tag_id));
                assert(post.links[x].tag_id != tag_id@);
                let w = choose|w: int|
                    0 <= w < pre.tags.len() && #[trigger] pre.tags[w].id == post.links[x].tag_id;
                assert(has_tag(shrunk, post.links[x].tag_id));
                let v = choose|v: int|
                    0 <= v < shrunk.len() && #[trigger] shrunk[v].id == post.links[x].tag_id;
                assert(post.tags[v].id == post.links[x].tag_id);
            }
            assert(post.wf());
        }
        Ok(())
    }
}

} // verus!
