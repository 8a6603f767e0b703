//! The list entity and the fixed smart lists.

use vstd::prelude::*;
use crate::clock::now_timestamp;
use crate::uid::fresh_id;

verus! {

/// A list record. Smart lists carry fixed well-known ids.
#[derive(Debug)]
pub struct List {
    pub id: String,
    pub name: String,
    pub icon: String,
    pub color: String,
    pub is_smart: bool,
    pub order: i32,
    pub created_at: i64,
}

/// The mathematical image of a list.
#[verifier::ext_equal]
pub ghost struct ListView {
    pub id: Seq<char>,
    pub name: Seq<char>,
    pub icon: Seq<char>,
    pub color: Seq<char>,
    pub is_smart: bool,
    pub order: i32,
    pub created_at: i64,
}

impl View for List {
    type V = ListView;

    open spec fn view(&self) -> ListView {
        ListView {
            id: self.id@,
            name: self.name@,
            icon: self.icon@,
            color: self.color@,
            is_smart: self.is_smart,
            order: self.order,
            created_at: self.created_at,
        }
    }
}

impl DeepView for List {
    type V = ListView;

    open spec fn deep_view(&self) -> ListView {
        self.view()
    }
}

impl Clone for List {
    fn clone(&self) -> (res: Self)
        ensures
            res@ == self@,
    {
        List {
            id: self.id.clone(),
            name: self.name.clone(),
            icon: self.icon.clone(),
            color: self.color.clone(),
            is_smart: self.is_smart,
            order: self.order,
            created_at: self.created_at,
        }
    }
}

/// The computed lists, each resolved from its well-known id. Any other id
/// names a user list.
#[derive(Clone, Copy, Debug, PartialEq, Eq, Structural)]
pub enum SmartListType {
    Inbox,
    Today,
    Week,
    All,
    Completed,
    Trash,
}

impl SmartListType {
    pub open spec fn spec_id(self) -> Seq<char> {
        match self {
            SmartListType::Inbox => "smart_inbox"@,
            SmartListType::Today => "smart_today"@,
            SmartListType::Week => "smart_week"@,
            SmartListType::All => "smart_all"@,
            SmartListType::Completed => "smart_completed"@,
            SmartListType::Trash => "smart_trash"@,
        }
    }

    pub open spec fn spec_name(self) -> Seq<char> {
        match self {
            SmartListType::Inbox => "Inbox"@,
            SmartListType::Today => "Today"@,
            SmartListType::Week => "Next 7 Days"@,
            SmartListType::All => "All Tasks"@,
            SmartListType::Completed => "Completed"@,
            SmartListType::Trash => "Trash"@,
        }
    }

    pub open spec fn spec_icon(self) -> Seq<char> {
        match self {
            SmartListType::Inbox => "inbox"@,
            SmartListType::Today => "calendar"@,
            SmartListType::Week => "calendar-days"@,
            SmartListType::All => "list"@,
            SmartListType::Completed => "check"@,
            SmartListType::Trash => "trash"@,
        }
    }

    /// The fixed startup order of the smart-list rows.
    pub open spec fn spec_order(self) -> i32 {
        match self {
            SmartListType::All => 0,
            SmartListType::Today => 1,
            SmartListType::Week => 2,
            SmartListType::Inbox => 3,
            SmartListType::Completed => 4,
            SmartListType::Trash => 5,
        }
    }

    /// The fixed startup order of this smart list's row.
    pub fn order_index(self) -> (r: i32)
        ensures
            r == self.spec_order(),
    {
        match self {
            SmartListType::All => 0,
            SmartListType::Today => 1,
            SmartListType::Week => 2,
            SmartListType::Inbox => 3,
            SmartListType::Completed => 4,
            SmartListType::Trash => 5,
        }
    }

    /// The well-known id of this smart list.
    pub fn id_str(self) -> (r: &'static str)
        ensures
            r@ == self.spec_id(),
    {
        match self {
            SmartListType::Inbox => "smart_inbox",
            SmartListType::Today => "smart_today",
            SmartListType::Week => "smart_week",
            SmartListType::All => "smart_all",
            SmartListType::Completed => "smart_completed",
            SmartListType::Trash => "smart_trash",
        }
    }

    /// Which smart list an id resolves to; `None` for a user-list id.
    pub open spec fn spec_resolve(id: Seq<char>) -> Option<SmartListType> {
        if id == "smart_inbox"@ {
            Some(SmartListType::Inbox)
        } else if id == "smart_today"@ {
            Some(SmartListType::Today)
        } else if id == "smart_week"@ {
            Some(SmartListType::Week)
        } else if id == "smart_all"@ {
            Some(SmartListType::All)
        } else if id == "smart_completed"@ {
            Some(SmartListType::Completed)
        } else if id == "smart_trash"@ {
            Some(SmartListType::Trash)
        } else {
            None
        }
    }

    /// Resolves a list id once, at the repository boundary.
    pub fn resolve(id: &str) -> (r: Option<SmartListType>)
        ensures
            r == SmartListType::spec_resolve(id@),
    {
        if crate::text::str_eq(id, "smart_inbox") {
            Some(SmartListType::Inbox)
        } else if crate::text::str_eq(id, "smart_today") {
            Some(SmartListType::Today)
        } else if crate::text::str_eq(id, "smart_week") {
            Some(SmartListType::Week)
        } else if crate::text::str_eq(id, "smart_all") {
            Some(SmartListType::All)
        } else if crate::text::str_eq(id, "smart_completed") {
            Some(SmartListType::Completed)
        } else if crate::text::str_eq(id, "smart_trash") {
            Some(SmartListType::Trash)
        } else {
            None
        }
    }
}

impl List {
    /// A fresh user list with a generated id, order 0, stamped now.
    pub fn new(name: String, icon: String, color: String) -> (l: List)
        ensures
            l@.name == name@,
            l@.icon == icon@,
            l@.color == color@,
            !l@.is_smart,
            l@.order == 0,
    {
        List {
            id: fresh_id(),
            name,
            icon,
            color,
            is_smart: false,
            order: 0,
            created_at: now_timestamp(),
        }
    }

    /// The canonical record of a smart list, stamped now. Its startup order
    /// is fixed by the connection manager when it seeds the store.
    pub fn new_smart(list_type: SmartListType) -> (l: List)
        ensures
            l@.id == list_type.spec_id(),
            l@.name == list_type.spec_name(),
            l@.icon == list_type.spec_icon(),
            l@.color == "#3B82F6"@,
            l@.is_smart,
            l@.order == 0,
    {
        let id: &'static str = list_type.id_str();
        let name: &'static str = match list_type {
            SmartListType::Inbox => "Inbox",
            SmartListType::Today => "Today",
            SmartListType::Week => "Next 7 Days",
            SmartListType::All => "All Tasks",
            SmartListType::Completed => "Completed",
            SmartListType::Trash => "Trash",
        };
        let icon: &'static str = match list_type {
            SmartListType::Inbox => "inbox",
            SmartListType::Today => "calendar",
            SmartListType::Week => "calendar-days",
            SmartListType::All => "list",
            SmartListType::Completed => "check",
            SmartListType::Trash => "trash",
        };
        List {
            id: id.to_owned(),
            name: name.to_owned(),
            icon: icon.to_owned(),
            color: "#3B82F6".to_owned(),
            is_smart: true,
            order: 0,
            created_at: now_timestamp(),
        }
    }
}

} // verus!
