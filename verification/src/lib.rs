//! Core of a local task-management backend: tasks, lists and tags with
//! smart-list queries, soft deletion and tag associations, kept in an
//! in-memory store that a thin shell persists.

pub mod db;
pub mod error;
pub mod laws;
pub mod models;
pub mod text;

mod clock;
mod uid;
