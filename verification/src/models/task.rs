//! The task entity: priority scale, the task record, and its completion
//! state transition.

use vstd::prelude::*;
use crate::clock::now_timestamp;
use crate::uid::fresh_id;

verus! {

/// Task priority, an ordinal scale. Unknown ordinals normalize to `NotSet`.
#[derive(Clone, Copy, Debug, PartialEq, Eq, Structural)]
pub enum Priority {
    NotSet,
    Low,
    Medium,
    High,
}

impl Priority {
    pub open spec fn spec_from_i32(value: i32) -> Priority {
        if value == 1 {
            Priority::Low
        } else if value == 2 {
            Priority::Medium
        } else if value == 3 {
            Priority::High
        } else {
            Priority::NotSet
        }
    }

    pub open spec fn spec_to_i32(self) -> i32 {
        match self {
            Priority::NotSet => 0,
            Priority::Low => 1,
            Priority::Medium => 2,
            Priority::High => 3,
        }
    }

    /// Reads a stored ordinal; anything out of range normalizes to `NotSet`.
    pub fn from_i32(value: i32) -> (p: Priority)
        ensures
            p == Priority::spec_from_i32(value),
    {
        match value {
            1 => Priority::Low,
            2 => Priority::Medium,
            3 => Priority::High,
            _ => Priority::NotSet,
        }
    }

    /// The ordinal this priority is stored as.
    pub fn to_i32(self) -> (v: i32)
        ensures
            v == self.spec_to_i32(),
    {
        match self {
            Priority::NotSet => 0,
            Priority::Low => 1,
            Priority::Medium => 2,
            Priority::High => 3,
        }
    }
}

/// A task record.
#[derive(Debug)]
pub struct Task {
    pub id: String,
    pub title: String,
    pub description: String,
    pub list_id: String,
    pub completed: bool,
    pub priority: Priority,
    pub due_date: Option<i64>,
    pub reminder: Option<i64>,
    pub tags: Vec<String>,
    pub parent_id: Option<String>,
    pub order: i32,
    pub is_deleted: bool,
    pub created_at: i64,
    pub updated_at: i64,
    pub completed_at: Option<i64>,
}

/// The mathematical image of a task: strings as character sequences.
#[verifier::ext_equal]
pub ghost struct TaskView {
    pub id: Seq<char>,
    pub title: Seq<char>,
    pub description: Seq<char>,
    pub list_id: Seq<char>,
    pub completed: bool,
    pub priority: Priority,
    pub due_date: Option<i64>,
    pub reminder: Option<i64>,
    pub tags: Seq<Seq<char>>,
    pub parent_id: Option<Seq<char>>,
    pub order: i32,
    pub is_deleted: bool,
    pub created_at: i64,
    pub updated_at: i64,
    pub completed_at: Option<i64>,
}

impl TaskView {
    /// A task is completed exactly when it carries a completion time.
    pub open spec fn wf(self) -> bool {
        self.completed <==> self.completed_at is Some
    }

    /// The task after its completion flag is toggled at instant `now`.
    pub open spec fn toggled(self, now: i64) -> TaskView {
        TaskView {
            completed: !self.completed,
            updated_at: now,
            completed_at: if !self.completed {
                Some(now)
            } else {
                None
            },
            ..self
        }
    }
}

impl View for Task {
    type V = TaskView;

    open spec fn view(&self) -> TaskView {
        TaskView {
            id: self.id@,
            title: self.title@,
            description: self.description@,
            list_id: self.list_id@,
            completed: self.completed,
            priority: self.priority,
            due_date: self.due_date,
            reminder: self.reminder,
            tags: self.tags.deep_view(),
            parent_id: self.parent_id.deep_view(),
            order: self.order,
            is_deleted: self.is_deleted,
            created_at: self.created_at,
            updated_at: self.updated_at,
            completed_at: self.completed_at,
        }
    }
}

impl DeepView for Task {
    type V = TaskView;

    open spec fn deep_view(&self) -> TaskView {
        self.view()
    }
}

impl Clone for Task {
    fn clone(&self) -> (res: Self)
        ensures
            res@ == self@,
    {
        let res = Task {
            id: self.id.clone(),
            title: self.title.clone(),
            description: self.description.clone(),
            list_id: self.list_id.clone(),
            completed: self.completed,
            priority: self.priority,
            due_date: self.due_date,
            reminder: self.reminder,
            tags: self.tags.clone(),
            parent_id: self.parent_id.clone(),
            order: self.order,
            is_deleted: self.is_deleted,
            created_at: self.created_at,
            updated_at: self.updated_at,
            completed_at: self.completed_at,
        };
        proof {
            assert(res.tags.deep_view() =~= self.tags.deep_view());
            assert(res@ =~= self@);
        }
        res
    }
}

impl Task {
    pub open spec fn wf(self) -> bool {
        self@.wf()
    }

    /// A fresh task: incomplete, undeleted, in the given list, stamped with
    /// the current time and a generated id.
    pub fn new(title: String, list_id: String) -> (t: Task)
        ensures
            t@.wf(),
            t@.title == title@,
            t@.list_id == list_id@,
            t@.description == Seq::<char>::empty(),
            !t@.completed,
            t@.priority == Priority::NotSet,
            t@.due_date is None,
            t@.reminder is None,
            t@.tags == Seq::<Seq<char>>::empty(),
            t@.parent_id is None,
            t@.order == 0,
            !t@.is_deleted,
            t@.created_at == t@.updated_at,
            t@.completed_at is None,
    {
        let now: i64 = now_timestamp();
        let t = Task {
            id: fresh_id(),
            title,
            description: String::new(),
            list_id,
            completed: false,
            priority: Priority::NotSet,
            due_date: None,
            reminder: None,
            tags: Vec::new(),
            parent_id: None,
            order: 0,
            is_deleted: false,
            created_at: now,
            updated_at: now,
            completed_at: None,
        };
        proof {
            assert(t@.tags =~= Seq::<Seq<char>>::empty());
        }
        t
    }

    /// Toggles completion at instant `now`: the flag flips, the completion
    /// time is set or cleared with it, and `updated_at` is refreshed.
    pub fn toggle_completed_at(&mut self, now: i64)
        ensures
            final(self)@ == old(self)@.toggled(now),
            final(self)@.wf(),
    {
        self.completed = !self.completed;
        self.updated_at = now;
        if self.completed {
            self.completed_at = Some(now);
        } else {
            self.completed_at = None;
        }
    }

    /// Toggles completion at the current instant.
    pub fn toggle_completed(&mut self)
        ensures
            exists|now: i64| final(self)@ == old(self)@.toggled(now),
            final(self)@.wf(),
            final(self)@.completed == !old(self)@.completed,
    {
        let now: i64 = now_timestamp();
        self.toggle_completed_at(now);
    }
}

} // verus!
