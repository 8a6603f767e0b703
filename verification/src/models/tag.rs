//! The tag entity: a named label, optionally under a parent tag.

use vstd::prelude::*;
use crate::clock::now_timestamp;
use crate::uid::fresh_id;

verus! {

/// A tag record. Names are unique across the store.
#[derive(Debug)]
pub struct Tag {
    pub id: String,
    pub name: String,
    pub color: String,
    pub parent_id: Option<String>,
    pub is_pinned: bool,
    pub created_at: i64,
}

/// The mathematical image of a tag.
#[verifier::ext_equal]
pub ghost struct TagView {
    pub id: Seq<char>,
    pub name: Seq<char>,
    pub color: Seq<char>,
    pub parent_id: Option<Seq<char>>,
    pub is_pinned: bool,
    pub created_at: i64,
}

impl View for Tag {
    type V = TagView;

    open spec fn view(&self) -> TagView {
        TagView {
            id: self.id@,
            name: self.name@,
            color: self.color@,
            parent_id: self.parent_id.deep_view(),
            is_pinned: self.is_pinned,
            created_at: self.created_at,
        }
    }
}

impl DeepView for Tag {
    type V = TagView;

    open spec fn deep_view(&self) -> TagView {
        self.view()
    }
}

impl Clone for Tag {
    fn clone(&self) -> (res: Self)
        ensures
            res@ == self@,
    {
        Tag {
            id: self.id.clone(),
            name: self.name.clone(),
            color: self.color.clone(),
            parent_id: self.parent_id.clone(),
            is_pinned: self.is_pinned,
            created_at: self.created_at,
        }
    }
}

impl Tag {
    /// A fresh tag with a generated id, unpinned, stamped now.
    pub fn new(name: String, color: String, parent_id: Option<String>) -> (t: Tag)
        ensures
            t@.name == name@,
            t@.color == color@,
            t@.parent_id == parent_id.deep_view(),
            !t@.is_pinned,
    {
        Tag {
            id: fresh_id(),
            name,
            color,
            parent_id,
            is_pinned: false,
            created_at: now_timestamp(),
        }
    }
}

} // verus!
