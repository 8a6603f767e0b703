//! The store and its repositories.

pub mod cascade;
pub mod connection;
pub mod list_repo;
pub mod query;
pub mod sorting;
pub mod tag_repo;
pub mod task_repo;

pub use connection::Database;
pub use connection::DatabaseView;
pub use connection::TaskTag;
pub use list_repo::ListRepository;
pub use tag_repo::TagRepository;
pub use task_repo::TaskRepository;
