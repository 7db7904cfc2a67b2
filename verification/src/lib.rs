//! Task statistics, task-graph grouping and the small deterministic
//! decisions of the turbo-tasks engine and the turbopack asset pipeline.
pub mod assoc;
pub mod task_type;
pub mod backend;
pub mod stats;
pub mod merge;
pub mod tree;
pub mod names;
pub mod attrs;
pub mod codegen;
pub mod manager;
pub mod value;
pub mod vc;
pub mod esm_binding;
pub mod text;
pub mod chunk;
pub mod emitter;
pub mod typescript;
pub mod reference;
pub mod macro_plans;
pub mod static_asset;
pub mod asset_graph;
pub mod ast_dump;
pub mod rebase;
