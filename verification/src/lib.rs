//! A verified task-stack store.
//!
//! The store keeps an ordered stack of tasks: pushing lays a new task on
//! top without touching the ones beneath it, popping ends the top task and
//! reveals the one below as current, and updating rewrites a task's text.
//! The stack invariants — unique positions among active tasks, at most one
//! current task, no row ever duplicated or deleted — are stated as
//! contracts and proved.

mod clock;
pub mod database;
pub mod error;
pub mod models;
pub mod stack;
pub mod text;
