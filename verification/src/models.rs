//! Domain entities: tasks, lists and tags, with their mathematical views.

pub mod list;
pub mod tag;
pub mod task;

pub use list::List;
pub use list::ListView;
pub use list::SmartListType;
pub use tag::Tag;
pub use tag::TagView;
pub use task::Priority;
pub use task::Task;
pub use task::TaskView;
