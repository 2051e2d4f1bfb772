//! Task-tracker operations over frame's markdown project files.

mod clock;
pub mod model;
pub mod text;
pub mod refs;
pub mod parse;
pub mod task_ops;
pub mod task_tree;
pub mod reconcile;
pub mod git_setup;
pub mod merge_files;
pub mod inbox_ops;
pub mod task_id;
pub mod ids;
pub mod import;
pub mod project;
pub mod clean;
pub mod field_order;
pub mod deps;
pub mod check;
pub mod fix;
pub mod search;
pub mod actor_merge;
pub mod recover;
pub mod laws;
