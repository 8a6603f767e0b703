//! List repository. Deleting a list is destructive: the storage cascade
//! hard-deletes its tasks, not the reversible soft-delete path.

use vstd::prelude::*;
use vstd::pervasive::VecAdditionalExecFns;
use crate::db::cascade::{lemma_purged_from, purge, purged, PurgeSeed, PurgeSeedView};
use crate::db::connection::{
    has_list, lemma_list_at, lemma_without_list, lemma_without_list_distinct, list_at,
    without_list, Database, DatabaseView,
};
use crate::db::sorting::{lists_in_order, sort_lists};
use crate::error::{fails_conflict, fails_not_found, AppError, EntityKind};
use crate::models::list::{List, ListView};
use crate::text::str_eq;

verus! {

/// Operations over list records.
pub struct ListRepository;

/// The lists table after one row's mutable columns are rewritten: name,
/// icon, color and order; identity, creation stamp and the smart flag are
/// immutable. An unknown id changes nothing.
pub open spec fn list_rewritten(lists: Seq<ListView>, l: ListView) -> Seq<ListView> {
    Seq::new(
        lists.len(),
        |i: int|
            if lists[i].id == l.id {
                ListView { name: l.name, icon: l.icon, color: l.color, order: l.order, ..lists[i] }
            } else {
                lists[i]
            },
    )
}

impl ListRepository {
    /// Inserts a list row; its id must be fresh.
    pub fn create(db: &mut Database, list: &List) -> (r: Result<List, AppError>)
        requires
            old(db)@.wf(),
        ensures
            final(db)@.wf(),
            r is Ok <==> !has_list(old(db)@.lists, list@.id),
            r is Ok ==> final(db)@ == (DatabaseView {
                lists: old(db)@.lists.push(list@),
                ..old(db)@
            }),
            r matches Ok(l) ==> l@ == list@,
            r is Err ==> final(db)@ == old(db)@ && fails_conflict(r, EntityKind::List, list@.id),
    {
        let ghost pre = db@;
        if db.find_list(list.id.as_str()).is_some() {
            return Err(AppError::Conflict(EntityKind::List, list.id.clone()));
        }
        db.lists.push(list.clone());
        proof {
            assert(db@.lists =~= pre.lists.push(list@));
            assert(db@ =~= (DatabaseView { lists: pre.lists.push(list@), ..pre }));
            let post = db@;
            assert forall|a: int, b: int| 0 <= a < b < post.lists.len() implies (
            #[trigger] post.lists[a]).id != (#[trigger] post.lists[b]).id by {
                if b < post.lists.len() - 1 {
                    assert(pre.lists[a].id != pre.lists[b].id);
                } else {
                    if pre.lists[a].id == list@.id {
                        assert(has_list(pre.lists, list@.id));
                    }
                }
            }
            assert forall|i: int| 0 <= i < post.tasks.len() implies has_list(
                post.lists,
                (#[trigger] post.tasks[i]).list_id,
            ) by {
                assert(has_list(pre.lists, pre.tasks[i].list_id));
                let w = choose|w: int|
                    0 <= w < pre.lists.len() && #[trigger] pre.lists[w].id == pre.tasks[i].list_id;
                assert(post.lists[w].id == pre.tasks[i].list_id);
            }
            assert(post.wf());
        }
        Ok(list.clone())
    }

    /// Looks a list up by id.
    pub fn get_by_id(db: &Database, list_id: &str) -> (r: Result<List, AppError>)
        requires
            db@.wf(),
        ensures
            r is Ok <==> has_list(db@.lists, list_id@),
            r matches Ok(l) ==> l@ == list_at(db@.lists, list_id@),
            r is Err ==> fails_not_found(r, EntityKind::List, list_id@),
    {
        match db.find_list(list_id) {
            Some(i) => {
                proof {
                    lemma_list_at(db@.lists, i as int);
                }
                Ok(db.lists[i].clone())
            },
            None => Err(AppError::NotFound(EntityKind::List, list_id.to_owned())),
        }
    }

    /// Every list, ordered by order index ascending, then creation time
    /// ascending.
    pub fn get_all(db: &Database) -> (r: Vec<List>)
        ensures
            r.deep_view() == lists_in_order(db@.lists),
    {
        sort_lists(&db.lists)
    }

    /// Rewrites a list's name, icon, color and order index by id; identity,
    /// creation stamp and the smart flag are immutable. An unknown id
    /// changes nothing.
    pub fn update(db: &mut Database, list: &List) -> (r: Result<List, AppError>)
        requires
            old(db)@.wf(),
        ensures
            final(db)@.wf(),
            r is Ok,
            final(db)@ == (DatabaseView {
                lists: list_rewritten(old(db)@.lists, list@),
                ..old(db)@
            }),
            r matches Ok(l) ==> l@ == list@,
    {
        let ghost pre = db@;
        match db.find_list(list.id.as_str()) {
            Some(i) => {
                let mut row = db.lists[i].clone();
                row.name = list.name.clone();
                row.icon = list.icon.clone();
                row.color = list.color.clone();
                row.order = list.order;
                db.lists.set(i, row);
                proof {
                    assert forall|m: int| 0 <= m < pre.lists.len() implies db@.lists[m]
                        == list_rewritten(pre.lists, list@)[m] by {
                        if m != i as int {
                            if pre.lists[m].id == list@.id {
                                assert(pre.lists[m].id != pre.lists[i as int].id);
                            }
                        }
                    }
                    assert(db@.lists =~= list_rewritten(pre.lists, list@));
                    assert(db@ =~= (DatabaseView {
                        lists: list_rewritten(pre.lists, list@),
                        ..pre
                    }));
                }
            },
            None => {
                proof {
                    assert forall|m: int| 0 <= m < pre.lists.len() implies db@.lists[m]
                        == list_rewritten(pre.lists, list@)[m] by {
                        if pre.lists[m].id == list@.id {
                            assert(has_list(pre.lists, list@.id));
                        }
                    }
                    assert(db@.lists =~= list_rewritten(pre.lists, list@));
                    assert(db@ =~= (DatabaseView {
                        lists: list_rewritten(pre.lists, list@),
                        ..pre
                    }));
                }
            },
        }
        proof {
            let post = db@;
            assert forall|a: int, b: int| 0 <= a < b < post.lists.len() implies (
            #[trigger] post.lists[a]).id != (#[trigger] post.lists[b]).id by {
                assert(pre.lists[a].id != pre.lists[b].id);
            }
            assert forall|i: int| 0 <= i < post.tasks.len() implies has_list(
                post.lists,
                (#[trigger] post.tasks[i]).list_id,
            ) by {
                assert(has_list(pre.lists, pre.tasks[i].list_id));
                let w = choose|w: int|
                    0 <= w < pre.lists.len() && #[trigger] pre.lists[w].id == pre.tasks[i].list_id;
                assert(post.lists[w].id == pre.tasks[i].list_id);
            }
            assert(post.wf());
        }
        Ok(list.clone())
    }

    /// Deletes a list by id. The storage cascade makes this destructive:
    /// every task of the list is hard-deleted, along with descendants and
    /// their association rows — not reversible through the trash.
    pub fn delete(db: &mut Database, list_id: &str) -> (r: Result<(), AppError>)
        requires
            old(db)@.wf(),
        ensures
            final(db)@.wf(),
            r is Ok <==> has_list(old(db)@.lists, list_id@),
            r is Ok ==> final(db)@ == (DatabaseView {
                lists: without_list(old(db)@.lists, list_id@),
                ..purged(old(db)@, PurgeSeedView::InList(list_id@))
            }),
            r is Err ==> final(db)@ == old(db)@ && fails_not_found(r, EntityKind::List, list_id@),
    {
        let ghost pre = db@;
        if db.find_list(list_id).is_none() {
            return Err(AppError::NotFound(EntityKind::List, list_id.to_owned()));
        }
        purge(db, &PurgeSeed::InList(list_id.to_owned()));
        let ghost mid = db@;
        let mut kept: Vec<List> = Vec::new();
        let mut j: usize = 0;
        proof {
            assert(mid.lists == pre.lists);
            assert(mid.lists.take(0) =~= Seq::<ListView>::empty());
            assert(kept.deep_view() =~= without_list(mid.lists.take(0), list_id@));
        }
        while j < db.lists.len()
            invariant
                j <= db.lists.len(),
                db@ == mid,
                mid.wf(),
                kept.deep_view() == without_list(mid.lists.take(j as int), list_id@),
            decreases db.lists.len() - j,
        {
            let ghost before = kept.deep_view();
            if !str_eq(db.lists[j].id.as_str(), list_id) {
                kept.push(db.lists[j].clone());
            }
            proof {
                let stepped = mid.lists.take(j as int + 1);
                assert(stepped.drop_last() =~= mid.lists.take(j as int));
                assert(stepped.last() == mid.lists[j as int]);
                if mid.lists[j as int].id == list_id@ {
                    assert(kept.deep_view() =~= before);
                } else {
                    assert(kept.deep_view() =~= before + seq![mid.lists[j as int]]);
                }
            }
            j = j + 1;
        }
        proof {
            assert(mid.lists.take(db.lists.len() as int) =~= mid.lists);
        }
        db.lists = kept;
        proof {
            let post = db@;
            assert(post =~= (DatabaseView {
                lists: without_list(pre.lists, list_id@),
                ..purged(pre, PurgeSeedView::InList(list_id@))
            }));
            lemma_without_list(pre.lists, list_id@);
            assert forall|a: int, b: int| 0 <= a < b < post.lists.len() implies (
            #[trigger] post.lists[a]).id != (#[trigger] post.lists[b]).id by {
                lemma_without_list_distinct(pre.lists, list_id@, a, b);
            }
            lemma_purged_from(pre.tasks, pre.tasks, PurgeSeedView::InList(list_id@));
            assert forall|i: int| 0 <= i < post.tasks.len() implies has_list(
                post.lists,
                (#[trigger] post.tasks[i]).list_id,
            ) by {
                let m = choose|m: int|
                    0 <= m < pre.tasks.len() && pre.tasks[m] == #[trigger] post.tasks[i]
                        && !crate::db::cascade::doomed(
                        pre.tasks,
                        PurgeSeedView::InList(list_id@),
                        pre.tasks[m],
                    );
                assert(!crate::db::cascade::seeds(PurgeSeedView::InList(list_id@), pre.tasks[m]))
                    by {
                    if crate::db::cascade::seeds(PurgeSeedView::InList(list_id@), pre.tasks[m]) {
                        assert(crate::db::cascade::doomed_at(
                            pre.tasks,
                            PurgeSeedView::InList(list_id@),
                            pre.tasks[m],
                            0,
                        ));
                    }
                }
                assert(pre.tasks[m].list_id != list_id@);
                assert(has_list(pre.lists, pre.tasks[m].list_id));
                let w = choose|w: int|
                    0 <= w < pre.lists.len() && #[trigger] pre.lists[w].id == pre.tasks[m].list_id;
                assert(has_list(post.lists, pre.lists[w].id));
            }
            assert(post.wf());
        }
        Ok(())
    }
}

} // verus!
